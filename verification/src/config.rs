//! The task configuration data model.
//!
//! A task is declared by one configuration record: the shell command to run,
//! the tasks it depends on, the inputs that feed its cache fingerprint, and
//! the output files to capture.  The records arrive already parsed; this
//! module gives them a mathematical view and the defaulting rules.

use vstd::prelude::*;

verus! {

/// Selects files: all regular files under `root` that match any of the glob
/// patterns in `filters`.
pub struct Selector {
    pub root: String,
    pub filters: Vec<String>,
}

/// The mathematical view of a `Selector`.
#[verifier::ext_equal]
pub struct SelectorView {
    pub root: Seq<char>,
    pub filters: Seq<Seq<char>>,
}

impl View for Selector {
    type V = SelectorView;

    open spec fn view(&self) -> SelectorView {
        SelectorView { root: self.root@, filters: self.filters.deep_view() }
    }
}

/// The selector a task gets when it declares none: every file under the
/// working directory.
pub open spec fn default_selector_view() -> SelectorView {
    SelectorView { root: seq!['.'], filters: seq![seq!['*']] }
}

impl Selector {
    /// The defaulting rule for a missing file selection.
    pub fn new_default() -> (r: Selector)
        ensures
            r@ == default_selector_view(),
    {
        proof {
            reveal_strlit(".");
            reveal_strlit("*");
        }
        let mut filters: Vec<String> = Vec::new();
        filters.push(String::from_str("*"));
        let r = Selector { root: String::from_str("."), filters };
        proof {
            assert(r@.filters =~~= default_selector_view().filters);
            assert(r@ =~~= default_selector_view());
        }
        r
    }
}

impl Clone for Selector {
    fn clone(&self) -> (r: Self)
        ensures
            r@ == self@,
    {
        let r = Selector { root: self.root.clone(), filters: clone_strings(&self.filters) };
        proof {
            assert(r@ =~= self@);
        }
        r
    }
}

impl Default for Selector {
    fn default() -> (r: Self)
        ensures
            r@ == default_selector_view(),
    {
        Selector::new_default()
    }
}

/// Clones a list of strings, keeping its contents.
pub fn clone_strings(v: &Vec<String>) -> (r: Vec<String>)
    ensures
        r.deep_view() == v.deep_view(),
{
    let mut r: Vec<String> = Vec::new();
    let mut i: usize = 0;
    while i < v.len()
        invariant
            i <= v.len(),
            r.len() == i,
            forall|j: int| 0 <= j < i ==> r.deep_view()[j] == v.deep_view()[j],
        decreases v.len() - i,
    {
        r.push(v[i].clone());
        i += 1;
    }
    proof {
        assert(r.deep_view() =~= v.deep_view());
    }
    r
}

/// Clones a list of selectors, keeping its contents.
pub fn clone_selectors(v: &Vec<Selector>) -> (r: Vec<Selector>)
    ensures
        r.deep_view() == v.deep_view(),
{
    let mut r: Vec<Selector> = Vec::new();
    let mut i: usize = 0;
    while i < v.len()
        invariant
            i <= v.len(),
            r.len() == i,
            forall|j: int| 0 <= j < i ==> r.deep_view()[j] == v.deep_view()[j],
        decreases v.len() - i,
    {
        r.push(v[i].clone());
        i += 1;
    }
    proof {
        assert(r.deep_view() =~= v.deep_view());
    }
    r
}

impl DeepView for Selector {
    type V = SelectorView;

    open spec fn deep_view(&self) -> SelectorView {
        self@
    }
}

/// What feeds a task's fingerprint: file selectors, invariant commands and
/// environment variable names.  `files` of `None` falls back to the default
/// selector.
pub struct Input {
    pub files: Option<Vec<Selector>>,
    pub invariants: Option<Vec<String>>,
    pub env_vars: Option<Vec<String>>,
}

/// The mathematical view of an `Input`.
#[verifier::ext_equal]
pub struct InputView {
    pub files: Option<Seq<SelectorView>>,
    pub invariants: Option<Seq<Seq<char>>>,
    pub env_vars: Option<Seq<Seq<char>>>,
}

impl View for Input {
    type V = InputView;

    open spec fn view(&self) -> InputView {
        InputView {
            files: match self.files {
                Some(v) => Some(v.deep_view()),
                None => None,
            },
            invariants: match self.invariants {
                Some(v) => Some(v.deep_view()),
                None => None,
            },
            env_vars: match self.env_vars {
                Some(v) => Some(v.deep_view()),
                None => None,
            },
        }
    }
}

impl Clone for Input {
    fn clone(&self) -> (r: Self)
        ensures
            r@ == self@,
    {
        let r = Input {
            files: match &self.files {
                Some(v) => Some(clone_selectors(v)),
                None => None,
            },
            invariants: match &self.invariants {
                Some(v) => Some(clone_strings(v)),
                None => None,
            },
            env_vars: match &self.env_vars {
                Some(v) => Some(clone_strings(v)),
                None => None,
            },
        };
        proof {
            assert(r@ =~= self@);
        }
        r
    }
}

impl Default for Input {
    /// By default a task's fingerprint covers every file under the working
    /// directory and no invariant commands or environment variables.
    fn default() -> (r: Self)
        ensures
            r@.files == Some(seq![default_selector_view()]),
            r@.invariants is None,
            r@.env_vars is None,
    {
        let mut files: Vec<Selector> = Vec::new();
        files.push(Selector::new_default());
        let r = Input { files: Some(files), invariants: None, env_vars: None };
        proof {
            assert(r@.files == Some(seq![default_selector_view()])) by {
                assert(r.files.unwrap().deep_view() =~= seq![default_selector_view()]);
            }
        }
        r
    }
}

/// The effective selector list: the declared one, or the default when none
/// was declared.
pub open spec fn spec_effective_selectors(input: InputView) -> Seq<SelectorView> {
    match input.files {
        Some(v) => v,
        None => seq![default_selector_view()],
    }
}

/// Resolves the file selection a task's fingerprint walks: `input.files`, or
/// the default selector when absent.
pub fn effective_selectors(input: &Input) -> (r: Vec<Selector>)
    ensures
        r.deep_view() == spec_effective_selectors(input@),
{
    match &input.files {
        Some(v) => clone_selectors(v),
        None => {
            let mut r: Vec<Selector> = Vec::new();
            r.push(Selector::new_default());
            proof {
                assert(r.deep_view() =~= seq![default_selector_view()]);
            }
            r
        },
    }
}

/// The output files a task declares: captured into the archive on a cache
/// miss, restored on a hit.
pub struct Output {
    pub files: Option<Vec<Selector>>,
}

/// The mathematical view of an `Output`.
#[verifier::ext_equal]
pub struct OutputView {
    pub files: Option<Seq<SelectorView>>,
}

impl View for Output {
    type V = OutputView;

    open spec fn view(&self) -> OutputView {
        OutputView {
            files: match self.files {
                Some(v) => Some(v.deep_view()),
                None => None,
            },
        }
    }
}

impl Clone for Output {
    fn clone(&self) -> (r: Self)
        ensures
            r@ == self@,
    {
        let r = Output {
            files: match &self.files {
                Some(v) => Some(clone_selectors(v)),
                None => None,
            },
        };
        proof {
            assert(r@ =~= self@);
        }
        r
    }
}

/// One dependency declaration: the name of a task that must finish before
/// this one starts.
pub struct DependsOn {
    pub name: Option<String>,
}

impl View for DependsOn {
    type V = Option<Seq<char>>;

    open spec fn view(&self) -> Option<Seq<char>> {
        match self.name {
            Some(n) => Some(n@),
            None => None,
        }
    }
}

impl DeepView for DependsOn {
    type V = Option<Seq<char>>;

    open spec fn deep_view(&self) -> Option<Seq<char>> {
        self@
    }
}

impl Clone for DependsOn {
    fn clone(&self) -> (r: Self)
        ensures
            r@ == self@,
    {
        match &self.name {
            Some(n) => DependsOn { name: Some(n.clone()) },
            None => DependsOn { name: None },
        }
    }
}

impl Default for DependsOn {
    fn default() -> (r: Self)
        ensures
            r@ is None,
    {
        DependsOn { name: None }
    }
}

impl DependsOn {
    /// The declared name, or the empty string when none was given; what a
    /// task listing prints for this entry.
    pub fn name_or_empty(&self) -> (r: String)
        ensures
            r@ == match self@ {
                Some(n) => n,
                None => Seq::<char>::empty(),
            },
    {
        match &self.name {
            Some(n) => n.clone(),
            None => String::new(),
        }
    }
}

/// One task's configuration: what to run, what it depends on, what feeds its
/// fingerprint and what it produces.
pub struct Config {
    pub description: Option<String>,
    pub run: String,
    pub depends_on: Option<Vec<DependsOn>>,
    pub input: Input,
    pub output: Option<Output>,
}

/// The mathematical view of a `Config`.
#[verifier::ext_equal]
pub struct ConfigView {
    pub description: Option<Seq<char>>,
    pub run: Seq<char>,
    pub depends_on: Option<Seq<Option<Seq<char>>>>,
    pub input: InputView,
    pub output: Option<OutputView>,
}

impl View for Config {
    type V = ConfigView;

    open spec fn view(&self) -> ConfigView {
        ConfigView {
            description: match self.description {
                Some(d) => Some(d@),
                None => None,
            },
            run: self.run@,
            depends_on: match self.depends_on {
                Some(d) => Some(d.deep_view()),
                None => None,
            },
            input: self.input@,
            output: match self.output {
                Some(o) => Some(o@),
                None => None,
            },
        }
    }
}

impl Clone for Config {
    fn clone(&self) -> (r: Self)
        ensures
            r@ == self@,
    {
        let r = Config {
            description: match &self.description {
                Some(d) => Some(d.clone()),
                None => None,
            },
            run: self.run.clone(),
            depends_on: match &self.depends_on {
                Some(d) => Some(clone_depends(d)),
                None => None,
            },
            input: self.input.clone(),
            output: match &self.output {
                Some(o) => Some(o.clone()),
                None => None,
            },
        };
        proof {
            assert(r@ =~= self@);
        }
        r
    }
}

/// Clones a list of dependency declarations, keeping its contents.
pub fn clone_depends(v: &Vec<DependsOn>) -> (r: Vec<DependsOn>)
    ensures
        r.deep_view() == v.deep_view(),
{
    let mut r: Vec<DependsOn> = Vec::new();
    let mut i: usize = 0;
    while i < v.len()
        invariant
            i <= v.len(),
            r.len() == i,
            forall|j: int| 0 <= j < i ==> r.deep_view()[j] == v.deep_view()[j],
        decreases v.len() - i,
    {
        r.push(v[i].clone());
        i += 1;
    }
    proof {
        assert(r.deep_view() =~= v.deep_view());
    }
    r
}

/// The names among a sequence of dependency declarations, in order; entries
/// without a name contribute nothing.
pub open spec fn spec_named_deps(deps: Seq<Option<Seq<char>>>) -> Seq<Seq<char>>
    decreases deps.len(),
{
    if deps.len() == 0 {
        Seq::empty()
    } else {
        let rest = spec_named_deps(deps.drop_last());
        match deps.last() {
            Some(n) => rest.push(n),
            None => rest,
        }
    }
}

/// The list of dependency names a config declares, in order, dropping
/// entries that carry no name.
pub open spec fn spec_dependency_names(c: ConfigView) -> Seq<Seq<char>> {
    match c.depends_on {
        Some(deps) => spec_named_deps(deps),
        None => Seq::empty(),
    }
}

/// Collects the dependency names of a config, in declared order; entries
/// without a name are dropped.
pub fn dependency_names(c: &Config) -> (r: Vec<String>)
    ensures
        r.deep_view() == spec_dependency_names(c@),
{
    let mut r: Vec<String> = Vec::new();
    match &c.depends_on {
        None => {
            proof {
                assert(r.deep_view() =~= spec_dependency_names(c@));
            }
        },
        Some(deps) => {
            let ghost all = deps.deep_view();
            let mut i: usize = 0;
            while i < deps.len()
                invariant
                    i <= deps.len(),
                    all == deps.deep_view(),
                    r.deep_view() == spec_named_deps(all.take(i as int)),
                decreases deps.len() - i,
            {
                match &deps[i].name {
                    Some(n) => {
                        r.push(n.clone());
                    },
                    None => {},
                }
                proof {
                    assert(all.take(i + 1 as int).drop_last() =~= all.take(i as int));
                    assert(all.take(i + 1 as int).last() == all[i as int]);
                    assert(r.deep_view() =~= spec_named_deps(all.take(i + 1 as int)));
                }
                i += 1;
            }
            proof {
                assert(all.take(deps.len() as int) =~= all);
            }
        },
    }
    r
}

/// A configuration as resolved from disk: the task id (the file name stem),
/// the first task that referenced it (its parent in the forest), the parsed
/// config, the exact bytes of the file, and where it was found.
pub struct ConfigFile {
    pub id: String,
    pub parent: Option<String>,
    pub config: Config,
    pub bytes: Vec<u8>,
    pub path: String,
}

/// The mathematical view of a `ConfigFile`.
#[verifier::ext_equal]
pub struct ConfigFileView {
    pub id: Seq<char>,
    pub parent: Option<Seq<char>>,
    pub config: ConfigView,
    pub bytes: Seq<u8>,
    pub path: Seq<char>,
}

impl View for ConfigFile {
    type V = ConfigFileView;

    open spec fn view(&self) -> ConfigFileView {
        ConfigFileView {
            id: self.id@,
            parent: match self.parent {
                Some(p) => Some(p@),
                None => None,
            },
            config: self.config@,
            bytes: self.bytes@,
            path: self.path@,
        }
    }
}

impl DeepView for ConfigFile {
    type V = ConfigFileView;

    open spec fn deep_view(&self) -> ConfigFileView {
        self@
    }
}

impl Clone for ConfigFile {
    fn clone(&self) -> (r: Self)
        ensures
            r@ == self@,
    {
        let mut bytes: Vec<u8> = Vec::new();
        bytes.extend_from_slice(self.bytes.as_slice());
        let r = ConfigFile {
            id: self.id.clone(),
            parent: match &self.parent {
                Some(p) => Some(p.clone()),
                None => None,
            },
            config: self.config.clone(),
            bytes,
            path: self.path.clone(),
        };
        proof {
            assert(r.bytes@ =~= self.bytes@);
            assert(r@ =~= self@);
        }
        r
    }
}

} // verus!
