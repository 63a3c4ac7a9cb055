//! What `garbelour.toml` says. Every part of it may be left out.
use vstd::prelude::*;

use crate::text;

verus! {

/// Which model to ask.
#[derive(Debug)]
pub struct Llm {
    pub provider: Option<String>,
    pub model: Option<String>,
}

/// Where GitHub is found.
#[derive(Debug)]
pub struct Github {
    pub base_url: Option<String>,
}

/// What the rules by path know besides what they know from the start.
#[derive(Debug)]
pub struct Classify {
    pub generated_globs: Vec<String>,
    pub lockfile_names: Vec<String>,
}

/// The whole of it.
#[derive(Debug)]
pub struct Config {
    pub classify: Classify,
    pub llm: Llm,
    pub github: Github,
}

fn clone_text(s: &Option<String>) -> (r: Option<String>)
    ensures
        text::opt_view(r) == text::opt_view(*s),
{
    match s {
        Some(x) => Some(x.clone()),
        None => None,
    }
}

impl Default for Llm {
    fn default() -> (r: Self)
        ensures
            r.provider is None,
            r.model is None,
    {
        Llm { provider: None, model: None }
    }
}

impl Clone for Llm {
    fn clone(&self) -> (r: Self)
        ensures
            text::opt_view(r.provider) == text::opt_view(self.provider),
            text::opt_view(r.model) == text::opt_view(self.model),
    {
        Llm { provider: clone_text(&self.provider), model: clone_text(&self.model) }
    }
}

impl Default for Github {
    fn default() -> (r: Self)
        ensures
            r.base_url is None,
    {
        Github { base_url: None }
    }
}

impl Clone for Github {
    fn clone(&self) -> (r: Self)
        ensures
            text::opt_view(r.base_url) == text::opt_view(self.base_url),
    {
        Github { base_url: clone_text(&self.base_url) }
    }
}

impl Default for Classify {
    fn default() -> (r: Self)
        ensures
            r.generated_globs@.len() == 0,
            r.lockfile_names@.len() == 0,
    {
        Classify { generated_globs: Vec::new(), lockfile_names: Vec::new() }
    }
}

impl Clone for Classify {
    fn clone(&self) -> (r: Self)
        ensures
            r.generated_globs@ == self.generated_globs@,
            r.lockfile_names@ == self.lockfile_names@,
    {
        Classify {
            generated_globs: text::clone_all(&self.generated_globs),
            lockfile_names: text::clone_all(&self.lockfile_names),
        }
    }
}

impl Default for Config {
    fn default() -> (r: Self)
        ensures
            r.classify.generated_globs@.len() == 0,
            r.classify.lockfile_names@.len() == 0,
            r.llm.provider is None,
            r.llm.model is None,
            r.github.base_url is None,
    {
        Config { classify: Classify::default(), llm: Llm::default(), github: Github::default() }
    }
}

impl Clone for Config {
    fn clone(&self) -> (r: Self)
        ensures
            r.classify.generated_globs@ == self.classify.generated_globs@,
            r.classify.lockfile_names@ == self.classify.lockfile_names@,
            text::opt_view(r.llm.provider) == text::opt_view(self.llm.provider),
            text::opt_view(r.llm.model) == text::opt_view(self.llm.model),
            text::opt_view(r.github.base_url) == text::opt_view(self.github.base_url),
    {
        Config {
            classify: self.classify.clone(),
            llm: self.llm.clone(),
            github: self.github.clone(),
        }
    }
}

} // verus!
