//! The configured shaders, as the configuration document lists them.
use vstd::prelude::*;

use crate::template::TemplateDataMap;
use crate::text::str_eq;
use crate::time::TimeOfDay;

verus! {

/// One configured shader: its name, when it is scheduled, whether it is the
/// default, and the parameters it is rendered with.
#[derive(Clone, Debug)]
pub struct Shader {
    pub name: String,
    pub start_time: Option<TimeOfDay>,
    pub end_time: Option<TimeOfDay>,
    pub default: bool,
    pub config: TemplateDataMap,
}

/// Position of the first shader marked default.
pub open spec fn first_default(shaders: Seq<Shader>) -> Option<int>
    decreases shaders.len(),
{
    if shaders.len() == 0 {
        None
    } else if shaders[0].default {
        Some(0)
    } else {
        match first_default(shaders.drop_first()) {
            Some(i) => Some(i + 1),
            None => None,
        }
    }
}

/// Position of the first shader with the given name.
pub open spec fn first_named(shaders: Seq<Shader>, name: Seq<char>) -> Option<int>
    decreases shaders.len(),
{
    if shaders.len() == 0 {
        None
    } else if shaders[0].name@ == name {
        Some(0)
    } else {
        match first_named(shaders.drop_first(), name) {
            Some(i) => Some(i + 1),
            None => None,
        }
    }
}

/// The configuration document: the list of shaders in the order written.
#[derive(Clone, Debug)]
pub struct ConfigDocument {
    pub shader: Vec<Shader>,
}

impl ConfigDocument {
    pub fn all_shaders(&self) -> (r: &[Shader])
        ensures
            r@ == self.shader@,
    {
        self.shader.as_slice()
    }

    /// The first shader marked default.
    pub fn default_shader(&self) -> (r: Option<&Shader>)
        ensures
            r == (match first_default(self.shader@) {
                Some(i) => Some(&self.shader@[i]),
                None => None,
            }),
    {
        let mut i: usize = 0;
        assert(self.shader@.subrange(0, self.shader@.len() as int) =~= self.shader@);
        while i < self.shader.len()
            invariant
                i <= self.shader@.len(),
                first_default(self.shader@) == (match first_default(
                    self.shader@.subrange(i as int, self.shader@.len() as int),
                ) {
                    Some(j) => Some(j + i),
                    None => None,
                }),
            decreases self.shader@.len() - i,
        {
            let ghost rest = self.shader@.subrange(i as int, self.shader@.len() as int);
            assert(rest.drop_first() =~= self.shader@.subrange(i + 1, self.shader@.len() as int));
            if self.shader[i].default {
                return Some(&self.shader[i]);
            }
            i += 1;
        }
        None
    }

    /// The parameters of the first shader with the given name.
    pub fn data(&self, name: &str) -> (r: Option<&TemplateDataMap>)
        ensures
            r == (match first_named(self.shader@, name@) {
                Some(i) => Some(&self.shader@[i].config),
                None => None,
            }),
    {
        match self.shader(name) {
            Some(s) => Some(&s.config),
            None => None,
        }
    }

    /// The first shader with the given name.
    pub fn shader(&self, name: &str) -> (r: Option<&Shader>)
        ensures
            r == (match first_named(self.shader@, name@) {
                Some(i) => Some(&self.shader@[i]),
                None => None,
            }),
    {
        let mut i: usize = 0;
        assert(self.shader@.subrange(0, self.shader@.len() as int) =~= self.shader@);
        while i < self.shader.len()
            invariant
                i <= self.shader@.len(),
                first_named(self.shader@, name@) == (match first_named(
                    self.shader@.subrange(i as int, self.shader@.len() as int),
                    name@,
                ) {
                    Some(j) => Some(j + i),
                    None => None,
                }),
            decreases self.shader@.len() - i,
        {
            let ghost rest = self.shader@.subrange(i as int, self.shader@.len() as int);
            assert(rest.drop_first() =~= self.shader@.subrange(i + 1, self.shader@.len() as int));
            if str_eq(self.shader[i].name.as_str(), name) {
                return Some(&self.shader[i]);
            }
            i += 1;
        }
        None
    }
}

} // verus!
