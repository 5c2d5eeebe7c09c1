//! The cache fingerprint and the manifest record.
//!
//! A task's fingerprint is the 16-byte BLAKE2b digest, hex encoded, of one
//! deterministic byte buffer: the hex digests of the selected input files,
//! then the stdout of the invariant commands, then the values of the named
//! environment variables, then the raw bytes of the task's config file.  The
//! walking of the file tree, the running of the invariant commands and the
//! reading of the environment happen outside the library; their results are
//! handed in as plain values and assembled and hashed here.

use crate::config::{Config, ConfigView, Input, InputView, SelectorView};
use crate::config::{effective_selectors, spec_effective_selectors};
use crate::errors::Error;
use crate::globs::{compile_filters, glob_pattern_ok, matches_any};
use crate::globs::{spec_filters_ok, spec_matches_any};
use vstd::prelude::*;

verus! {

/// The hex digits (upper case, two per digest byte) of the 16-byte BLAKE2b
/// digest of a byte sequence, as ASCII bytes.
pub uninterp spec fn blake2b128_hex(bytes: Seq<u8>) -> Seq<u8>;

/// An ASCII digit or an upper-case hex letter: the alphabet of the digest
/// and of the cache directory names derived from it.
pub open spec fn spec_is_upper_hex_digit(b: u8) -> bool {
    (0x30 <= b <= 0x39) || (0x41 <= b <= 0x46)
}

/// Relies on `b2sum_rs::Blake2bSum::new(16)` and
/// `b2sum_rs::Blake2bSum::read_bytes`: the 16-byte BLAKE2b digest of the
/// bytes, upper-hex encoded, hence 32 ASCII characters drawn from
/// `0123456789ABCDEF`; a function of the bytes alone.
#[verifier::external_body]
fn blake2b128_hex_bytes(bytes: &[u8]) -> (r: Vec<u8>)
    ensures
        r@ == blake2b128_hex(bytes@),
        r@.len() == 32,
        forall|i: int| 0 <= i < r@.len() ==> spec_is_upper_hex_digit(#[trigger] r@[i]),
{
    b2sum_rs::Blake2bSum::new(16).read_bytes(bytes).into_bytes()
}

/// One regular file found under a selector's root: its path as walked, and
/// its content bytes.
pub struct InputFile {
    pub path: String,
    pub contents: Vec<u8>,
}

/// The mathematical view of an `InputFile`.
#[verifier::ext_equal]
pub struct InputFileView {
    pub path: Seq<char>,
    pub contents: Seq<u8>,
}

impl View for InputFile {
    type V = InputFileView;

    open spec fn view(&self) -> InputFileView {
        InputFileView { path: self.path@, contents: self.contents@ }
    }
}

impl DeepView for InputFile {
    type V = InputFileView;

    open spec fn deep_view(&self) -> InputFileView {
        self@
    }
}

/// What one invariant command produced: its exit status and its stdout
/// bytes.
pub struct CommandOutput {
    pub status: i32,
    pub stdout: Vec<u8>,
}

/// The mathematical view of a `CommandOutput`.
#[verifier::ext_equal]
pub struct CommandOutputView {
    pub status: i32,
    pub stdout: Seq<u8>,
}

impl View for CommandOutput {
    type V = CommandOutputView;

    open spec fn view(&self) -> CommandOutputView {
        CommandOutputView { status: self.status, stdout: self.stdout@ }
    }
}

impl DeepView for CommandOutput {
    type V = CommandOutputView;

    open spec fn deep_view(&self) -> CommandOutputView {
        self@
    }
}

/// The invariant commands an input declares, or none.
pub open spec fn spec_invariants(input: InputView) -> Seq<Seq<char>> {
    match input.invariants {
        Some(v) => v,
        None => Seq::empty(),
    }
}

/// The environment variable names an input declares, or none.
pub open spec fn spec_env_vars(input: InputView) -> Seq<Seq<char>> {
    match input.env_vars {
        Some(v) => v,
        None => Seq::empty(),
    }
}

/// The digest bytes one selector contributes: for each file in walk order,
/// the hex digest of its contents iff its path matches any filter.
pub open spec fn spec_digests(filters: Seq<Seq<char>>, files: Seq<InputFileView>) -> Seq<u8>
    decreases files.len(),
{
    if files.len() == 0 {
        Seq::empty()
    } else {
        spec_digests(filters, files.drop_last()) + if spec_matches_any(
            filters,
            files.last().path,
        ) {
            blake2b128_hex(files.last().contents)
        } else {
            Seq::empty()
        }
    }
}

/// The file-digest section of the fingerprint buffer: each selector's
/// digests, in selector order.
pub open spec fn spec_files_section(
    selectors: Seq<SelectorView>,
    walked: Seq<Seq<InputFileView>>,
) -> Seq<u8>
    decreases selectors.len(),
{
    if selectors.len() == 0 || walked.len() == 0 {
        Seq::empty()
    } else {
        spec_files_section(selectors.drop_last(), walked.drop_last()) + spec_digests(
            selectors.last().filters,
            walked.last(),
        )
    }
}

/// The invariant-command section: every command's stdout bytes, in declared
/// order, no separators.
pub open spec fn spec_stdout_section(runs: Seq<CommandOutputView>) -> Seq<u8>
    decreases runs.len(),
{
    if runs.len() == 0 {
        Seq::empty()
    } else {
        spec_stdout_section(runs.drop_last()) + runs.last().stdout
    }
}

/// The environment section: the value bytes of each set variable, in
/// declared order; an unset variable contributes nothing, not even a
/// separator.
pub open spec fn spec_env_section(envs: Seq<Option<Seq<u8>>>) -> Seq<u8>
    decreases envs.len(),
{
    if envs.len() == 0 {
        Seq::empty()
    } else {
        spec_env_section(envs.drop_last()) + match envs.last() {
            Some(v) => v,
            None => Seq::empty(),
        }
    }
}

/// The exact byte buffer the fingerprint hashes: file digests, then
/// invariant stdout, then environment values, then the raw config bytes.
pub open spec fn spec_fingerprint_buffer(
    selectors: Seq<SelectorView>,
    walked: Seq<Seq<InputFileView>>,
    runs: Seq<CommandOutputView>,
    envs: Seq<Option<Seq<u8>>>,
    config: Seq<u8>,
) -> Seq<u8> {
    spec_files_section(selectors, walked) + spec_stdout_section(runs) + spec_env_section(envs)
        + config
}

/// The fingerprint itself: the hex digest of the buffer.
pub open spec fn spec_fingerprint(
    selectors: Seq<SelectorView>,
    walked: Seq<Seq<InputFileView>>,
    runs: Seq<CommandOutputView>,
    envs: Seq<Option<Seq<u8>>>,
    config: Seq<u8>,
) -> Seq<u8> {
    blake2b128_hex(spec_fingerprint_buffer(selectors, walked, runs, envs, config))
}

/// Every filter of every selector is an acceptable glob.
pub open spec fn spec_all_filters_ok(selectors: Seq<SelectorView>) -> bool {
    forall|k: int|
        0 <= k < selectors.len() ==> spec_filters_ok(#[trigger] selectors[k].filters)
}

/// Every invariant command exited with status zero.
pub open spec fn spec_runs_ok(runs: Seq<CommandOutputView>) -> bool {
    forall|k: int| 0 <= k < runs.len() ==> (#[trigger] runs[k]).status == 0
}

/// A task's cache key: the hex digest bytes of its input buffer.  Doubles as
/// the name of the task's cache directory.
#[derive(PartialEq, Eq, Debug)]
pub struct Hash(pub Vec<u8>);

impl View for Hash {
    type V = Seq<u8>;

    open spec fn view(&self) -> Seq<u8> {
        self.0@
    }
}

impl Clone for Hash {
    fn clone(&self) -> (r: Self)
        ensures
            r@ == self@,
    {
        let mut v: Vec<u8> = Vec::new();
        v.extend_from_slice(self.0.as_slice());
        proof {
            assert(v@ =~= self.0@);
        }
        Hash(v)
    }
}

/// Appends a byte slice to a buffer.
pub fn append_bytes(buf: &mut Vec<u8>, bytes: &[u8])
    ensures
        final(buf)@ == old(buf)@ + bytes@,
{
    let mut i: usize = 0;
    while i < bytes.len()
        invariant
            i <= bytes.len(),
            buf@ == old(buf)@ + bytes@.take(i as int),
        decreases bytes.len() - i,
    {
        buf.push(bytes[i]);
        proof {
            assert(old(buf)@ + bytes@.take(i + 1 as int) =~= (old(buf)@ + bytes@.take(
                i as int,
            )).push(bytes@[i as int]));
        }
        i += 1;
    }
    proof {
        assert(bytes@.take(bytes@.len() as int) =~= bytes@);
    }
}

impl Hash {
    /// Assembles the fingerprint buffer from the gathered inputs and hashes
    /// it.
    ///
    /// `walked[k]` are the regular files found under the `k`-th effective
    /// selector's root, in the deterministic walk order; `runs[k]` is what
    /// the `k`-th invariant command produced; `envs[k]` is the value of the
    /// `k`-th named environment variable, if set; `config_file` is the raw
    /// bytes of the task's config.  Fails on an invalid glob filter, and on
    /// an invariant command that exited non-zero.
    pub fn new(
        input: &Input,
        walked: &Vec<Vec<InputFile>>,
        runs: &Vec<CommandOutput>,
        envs: &Vec<Option<Vec<u8>>>,
        config_file: &Vec<u8>,
    ) -> (r: Result<Hash, Error>)
        requires
            walked.len() == spec_effective_selectors(input@).len(),
            runs.len() == spec_invariants(input@).len(),
            envs.len() == spec_env_vars(input@).len(),
        ensures
            r is Ok <==> spec_all_filters_ok(spec_effective_selectors(input@)) && spec_runs_ok(
                runs.deep_view(),
            ),
            r matches Ok(h) ==> h@ == spec_fingerprint(
                spec_effective_selectors(input@),
                walked.deep_view(),
                runs.deep_view(),
                envs.deep_view(),
                config_file@,
            ) && h@.len() == 32 && forall|i: int|
                0 <= i < h@.len() ==> spec_is_upper_hex_digit(#[trigger] h@[i]),
            !spec_all_filters_ok(spec_effective_selectors(input@)) ==> (r matches Err(e) && e
                matches Error::ConfigParseError(p) && exists|k: int, j: int|
                0 <= k < spec_effective_selectors(input@).len() && 0 <= j
                    < spec_effective_selectors(input@)[k].filters.len() && !glob_pattern_ok(
                    #[trigger] spec_effective_selectors(input@)[k].filters[j],
                ) && p@ == spec_effective_selectors(input@)[k].filters[j]),
            spec_all_filters_ok(spec_effective_selectors(input@)) && !spec_runs_ok(
                runs.deep_view(),
            ) ==> (r matches Err(e) && e matches Error::InputAccessError(c) && exists|k: int|
                0 <= k < runs.len() && (#[trigger] runs.deep_view()[k]).status != 0 && c@
                    == spec_invariants(input@)[k]),
    {
        let ghost selsv = spec_effective_selectors(input@);
        let ghost walkedv = walked.deep_view();
        let selectors = effective_selectors(input);
        let mut buf: Vec<u8> = Vec::new();

        let mut k: usize = 0;
        while k < selectors.len()
            invariant
                selsv == spec_effective_selectors(input@),
                selectors.deep_view() == selsv,
                walkedv == walked.deep_view(),
                walked.len() == selsv.len(),
                k <= selectors.len(),
                buf@ == spec_files_section(selsv.take(k as int), walkedv.take(k as int)),
                forall|m: int| 0 <= m < k ==> spec_filters_ok(#[trigger] selsv[m].filters),
            decreases selectors.len() - k,
        {
            let compiled = match compile_filters(&selectors[k].filters) {
                Ok(c) => c,
                Err(e) => {
                    proof {
                        let fl = selectors@[k as int].filters;
                        assert(selectors.deep_view()[k as int] == selsv[k as int]);
                        assert(fl.deep_view() == selsv[k as int].filters);
                        let jw = choose|j: int|
                            0 <= j < fl.len() && !glob_pattern_ok(
                                #[trigger] fl.deep_view()[j],
                            ) && e == Error::ConfigParseError(fl[j]);
                        assert(!glob_pattern_ok(selsv[k as int].filters[jw]));
                        assert(!spec_filters_ok(selsv[k as int].filters));
                        assert(!spec_all_filters_ok(selsv));
                        assert(e matches Error::ConfigParseError(p) ==> p@ == selsv[
                            k as int
                        ].filters[jw]);
                    }
                    return Err(e);
                },
            };
            let files = &walked[k];
            let mut j: usize = 0;
            while j < files.len()
                invariant
                    selectors.deep_view() == selsv,
                    walkedv == walked.deep_view(),
                    walked.len() == selsv.len(),
                    k < selectors.len(),
                    j <= files.len(),
                    files == &walked[k as int],
                    compiled.deep_view() == selsv[k as int].filters,
                    buf@ == spec_files_section(selsv.take(k as int), walkedv.take(k as int))
                        + spec_digests(
                        selsv[k as int].filters,
                        walkedv[k as int].take(j as int),
                    ),
                decreases files.len() - j,
            {
                if matches_any(&compiled, files[j].path.as_str()) {
                    let d = blake2b128_hex_bytes(files[j].contents.as_slice());
                    append_bytes(&mut buf, d.as_slice());
                }
                proof {
                    assert(walkedv[k as int].take(j + 1 as int).drop_last()
                        =~= walkedv[k as int].take(j as int));
                    assert(walkedv[k as int].take(j + 1 as int).last()
                        == walkedv[k as int][j as int]);
                    assert(buf@ =~= spec_files_section(
                        selsv.take(k as int),
                        walkedv.take(k as int),
                    ) + spec_digests(
                        selsv[k as int].filters,
                        walkedv[k as int].take(j + 1 as int),
                    ));
                }
                j += 1;
            }
            proof {
                assert(walkedv[k as int].take(walkedv[k as int].len() as int)
                    =~= walkedv[k as int]);
                assert(selsv.take(k + 1 as int).drop_last() =~= selsv.take(k as int));
                assert(walkedv.take(k + 1 as int).drop_last() =~= walkedv.take(k as int));
                assert(buf@ =~= spec_files_section(
                    selsv.take(k + 1 as int),
                    walkedv.take(k + 1 as int),
                ));
            }
            k += 1;
        }
        proof {
            assert(selsv.take(selsv.len() as int) =~= selsv);
            assert(walkedv.take(walkedv.len() as int) =~= walkedv);
        }

        let ghost runsv = runs.deep_view();
        let ghost files_sec = buf@;
        let mut k: usize = 0;
        while k < runs.len()
            invariant
                runsv == runs.deep_view(),
                runs.len() == spec_invariants(input@).len(),
                k <= runs.len(),
                buf@ == files_sec + spec_stdout_section(runsv.take(k as int)),
                forall|m: int| 0 <= m < k ==> (#[trigger] runsv[m]).status == 0,
                spec_all_filters_ok(spec_effective_selectors(input@)),
            decreases runs.len() - k,
        {
            if runs[k].status != 0 {
                let cmd = match &input.invariants {
                    Some(cmds) => cmds[k].clone(),
                    None => {
                        proof {
                            assert(false);
                        }
                        String::new()
                    },
                };
                proof {
                    assert(runsv[k as int].status != 0);
                }
                return Err(Error::InputAccessError(cmd));
            }
            append_bytes(&mut buf, runs[k].stdout.as_slice());
            proof {
                assert(runsv.take(k + 1 as int).drop_last() =~= runsv.take(k as int));
                assert(runsv.take(k + 1 as int).last() == runsv[k as int]);
                assert(buf@ =~= files_sec + spec_stdout_section(runsv.take(k + 1 as int)));
            }
            k += 1;
        }
        proof {
            assert(runsv.take(runsv.len() as int) =~= runsv);
        }

        let ghost envsv = envs.deep_view();
        let ghost pre_env = buf@;
        let mut k: usize = 0;
        while k < envs.len()
            invariant
                envsv == envs.deep_view(),
                k <= envs.len(),
                buf@ == pre_env + spec_env_section(envsv.take(k as int)),
            decreases envs.len() - k,
        {
            match &envs[k] {
                Some(v) => append_bytes(&mut buf, v.as_slice()),
                None => {},
            }
            proof {
                assert(envsv.take(k + 1 as int).drop_last() =~= envsv.take(k as int));
                assert(envsv.take(k + 1 as int).last() == envsv[k as int]);
                assert(buf@ =~= pre_env + spec_env_section(envsv.take(k + 1 as int)));
            }
            k += 1;
        }
        proof {
            assert(envsv.take(envsv.len() as int) =~= envsv);
        }

        append_bytes(&mut buf, config_file.as_slice());
        proof {
            assert(buf@ =~= spec_fingerprint_buffer(
                selsv,
                walkedv,
                runsv,
                envsv,
                config_file@,
            ));
        }
        let digest = blake2b128_hex_bytes(buf.as_slice());
        Ok(Hash(digest))
    }
}

/// The record stored beside a task's cached artifacts: when the entry was
/// made (milliseconds since the epoch), the fingerprint it is keyed by, and
/// the config that produced it.
pub struct Manifest {
    pub created: u64,
    pub hash: Hash,
    pub config: Config,
}

/// The mathematical view of a `Manifest`.
#[verifier::ext_equal]
pub struct ManifestView {
    pub created: u64,
    pub hash: Seq<u8>,
    pub config: ConfigView,
}

impl View for Manifest {
    type V = ManifestView;

    open spec fn view(&self) -> ManifestView {
        ManifestView { created: self.created, hash: self.hash@, config: self.config@ }
    }
}

impl Manifest {
    /// A fresh manifest for a cache entry made now: `created_ms` is the
    /// current time in milliseconds since the epoch, supplied by the caller.
    pub fn new(hash: Hash, config: &Config, created_ms: u64) -> (m: Manifest)
        ensures
            m@.created == created_ms,
            m@.hash == hash@,
            m@.config == config@,
    {
        Manifest { created: created_ms, hash, config: config.clone() }
    }
}

/// Two byte buffers that share a prefix and a suffix but differ in the part
/// between them differ as wholes.
pub proof fn lemma_append_ne(p: Seq<u8>, x: Seq<u8>, y: Seq<u8>, s: Seq<u8>)
    requires
        x != y,
    ensures
        p + x + s != p + y + s,
{
    if x.len() == y.len() {
        assert(!(x =~= y));
        let i = choose|i: int| 0 <= i < x.len() && x[i] != y[i];
        assert((p + x + s)[p.len() + i] == x[i]);
        assert((p + y + s)[p.len() + i] == y[i]);
    } else {
        assert((p + x + s).len() != (p + y + s).len());
    }
}

/// Determinism of the fingerprint: it is a function of the gathered inputs
/// alone, so two computations over identical inputs yield identical bytes.
pub proof fn lemma_fingerprint_deterministic(
    selectors1: Seq<SelectorView>,
    walked1: Seq<Seq<InputFileView>>,
    runs1: Seq<CommandOutputView>,
    envs1: Seq<Option<Seq<u8>>>,
    config1: Seq<u8>,
    selectors2: Seq<SelectorView>,
    walked2: Seq<Seq<InputFileView>>,
    runs2: Seq<CommandOutputView>,
    envs2: Seq<Option<Seq<u8>>>,
    config2: Seq<u8>,
)
    requires
        selectors1 == selectors2,
        walked1 == walked2,
        runs1 == runs2,
        envs1 == envs2,
        config1 == config2,
    ensures
        spec_fingerprint(selectors1, walked1, runs1, envs1, config1) == spec_fingerprint(
            selectors2,
            walked2,
            runs2,
            envs2,
            config2,
        ),
{
}

/// Changing any byte of the config changes the fingerprint's input buffer.
pub proof fn lemma_buffer_sensitive_to_config(
    selectors: Seq<SelectorView>,
    walked: Seq<Seq<InputFileView>>,
    runs: Seq<CommandOutputView>,
    envs: Seq<Option<Seq<u8>>>,
    config1: Seq<u8>,
    config2: Seq<u8>,
)
    requires
        config1 != config2,
    ensures
        spec_fingerprint_buffer(selectors, walked, runs, envs, config1)
            != spec_fingerprint_buffer(selectors, walked, runs, envs, config2),
{
    let p = spec_files_section(selectors, walked) + spec_stdout_section(runs) + spec_env_section(
        envs,
    );
    lemma_append_ne(p, config1, config2, Seq::empty());
    assert(p + config1 + Seq::<u8>::empty() =~= spec_fingerprint_buffer(
        selectors,
        walked,
        runs,
        envs,
        config1,
    ));
    assert(p + config2 + Seq::<u8>::empty() =~= spec_fingerprint_buffer(
        selectors,
        walked,
        runs,
        envs,
        config2,
    ));
}

/// The invariant-command section splits around any one command: the bytes
/// before it, its own stdout, the bytes after it.
pub proof fn lemma_stdout_section_split(runs: Seq<CommandOutputView>, k: int)
    requires
        0 <= k < runs.len(),
    ensures
        spec_stdout_section(runs) == spec_stdout_section(runs.take(k)) + runs[k].stdout
            + spec_stdout_section(runs.skip(k + 1)),
    decreases runs.len(),
{
    if k == runs.len() - 1 {
        assert(runs.take(k) =~= runs.drop_last());
        assert(runs.skip(k + 1) =~= Seq::<CommandOutputView>::empty());
        assert(spec_stdout_section(runs) =~= spec_stdout_section(runs.take(k)) + runs[k].stdout
            + spec_stdout_section(runs.skip(k + 1)));
    } else {
        let dl = runs.drop_last();
        lemma_stdout_section_split(dl, k);
        assert(dl.take(k) =~= runs.take(k));
        assert(dl.skip(k + 1) =~= runs.skip(k + 1).drop_last());
        assert(runs.skip(k + 1).last() == runs.last());
        assert(spec_stdout_section(runs) =~= spec_stdout_section(runs.take(k)) + runs[k].stdout
            + spec_stdout_section(runs.skip(k + 1)));
    }
}

/// Changing the stdout of any one invariant command changes the
/// fingerprint's input buffer.
pub proof fn lemma_buffer_sensitive_to_invariant(
    selectors: Seq<SelectorView>,
    walked: Seq<Seq<InputFileView>>,
    runs1: Seq<CommandOutputView>,
    runs2: Seq<CommandOutputView>,
    envs: Seq<Option<Seq<u8>>>,
    config: Seq<u8>,
    k: int,
)
    requires
        runs1.len() == runs2.len(),
        0 <= k < runs1.len(),
        forall|j: int| 0 <= j < runs1.len() && j != k ==> runs1[j] == runs2[j],
        runs1[k].stdout != runs2[k].stdout,
    ensures
        spec_fingerprint_buffer(selectors, walked, runs1, envs, config)
            != spec_fingerprint_buffer(selectors, walked, runs2, envs, config),
{
    lemma_stdout_section_split(runs1, k);
    lemma_stdout_section_split(runs2, k);
    assert(runs1.take(k) =~= runs2.take(k));
    assert(runs1.skip(k + 1) =~= runs2.skip(k + 1));
    let f = spec_files_section(selectors, walked);
    let pre = spec_stdout_section(runs1.take(k));
    let post = spec_stdout_section(runs1.skip(k + 1));
    let tail = spec_env_section(envs) + config;
    lemma_append_ne(f + pre, runs1[k].stdout, runs2[k].stdout, post + tail);
    assert((f + pre) + runs1[k].stdout + (post + tail) =~= spec_fingerprint_buffer(
        selectors,
        walked,
        runs1,
        envs,
        config,
    ));
    assert((f + pre) + runs2[k].stdout + (post + tail) =~= spec_fingerprint_buffer(
        selectors,
        walked,
        runs2,
        envs,
        config,
    ));
}

/// The environment section splits around any one variable.
pub proof fn lemma_env_section_split(envs: Seq<Option<Seq<u8>>>, k: int)
    requires
        0 <= k < envs.len(),
    ensures
        spec_env_section(envs) == spec_env_section(envs.take(k)) + match envs[k] {
            Some(v) => v,
            None => Seq::<u8>::empty(),
        } + spec_env_section(envs.skip(k + 1)),
    decreases envs.len(),
{
    let mid = match envs[k] {
        Some(v) => v,
        None => Seq::<u8>::empty(),
    };
    if k == envs.len() - 1 {
        assert(envs.take(k) =~= envs.drop_last());
        assert(envs.skip(k + 1) =~= Seq::<Option<Seq<u8>>>::empty());
        assert(spec_env_section(envs) =~= spec_env_section(envs.take(k)) + mid + spec_env_section(
            envs.skip(k + 1),
        ));
    } else {
        let dl = envs.drop_last();
        lemma_env_section_split(dl, k);
        assert(dl.take(k) =~= envs.take(k));
        assert(dl.skip(k + 1) =~= envs.skip(k + 1).drop_last());
        assert(envs.skip(k + 1).last() == envs.last());
        assert(spec_env_section(envs) =~= spec_env_section(envs.take(k)) + mid + spec_env_section(
            envs.skip(k + 1),
        ));
    }
}

/// Changing the value of any one named environment variable (set in both
/// runs) changes the fingerprint's input buffer.
pub proof fn lemma_buffer_sensitive_to_env(
    selectors: Seq<SelectorView>,
    walked: Seq<Seq<InputFileView>>,
    runs: Seq<CommandOutputView>,
    envs1: Seq<Option<Seq<u8>>>,
    envs2: Seq<Option<Seq<u8>>>,
    config: Seq<u8>,
    k: int,
)
    requires
        envs1.len() == envs2.len(),
        0 <= k < envs1.len(),
        forall|j: int| 0 <= j < envs1.len() && j != k ==> envs1[j] == envs2[j],
        envs1[k] matches Some(v1) && envs2[k] matches Some(v2) && v1 != v2,
    ensures
        spec_fingerprint_buffer(selectors, walked, runs, envs1, config)
            != spec_fingerprint_buffer(selectors, walked, runs, envs2, config),
{
    lemma_env_section_split(envs1, k);
    lemma_env_section_split(envs2, k);
    assert(envs1.take(k) =~= envs2.take(k));
    assert(envs1.skip(k + 1) =~= envs2.skip(k + 1));
    let f = spec_files_section(selectors, walked) + spec_stdout_section(runs);
    let pre = spec_env_section(envs1.take(k));
    let post = spec_env_section(envs1.skip(k + 1));
    let v1 = envs1[k]->Some_0;
    let v2 = envs2[k]->Some_0;
    lemma_append_ne((f + pre), v1, v2, post + config);
    assert((f + pre) + v1 + (post + config) =~= spec_fingerprint_buffer(
        selectors,
        walked,
        runs,
        envs1,
        config,
    ));
    assert((f + pre) + v2 + (post + config) =~= spec_fingerprint_buffer(
        selectors,
        walked,
        runs,
        envs2,
        config,
    ));
}

/// What one walked file contributes to its selector's digest section.
pub open spec fn spec_file_contrib(filters: Seq<Seq<char>>, f: InputFileView) -> Seq<u8> {
    if spec_matches_any(filters, f.path) {
        blake2b128_hex(f.contents)
    } else {
        Seq::empty()
    }
}

/// A selector's digest section splits around any one walked file.
pub proof fn lemma_digests_split(filters: Seq<Seq<char>>, files: Seq<InputFileView>, i: int)
    requires
        0 <= i < files.len(),
    ensures
        spec_digests(filters, files) == spec_digests(filters, files.take(i)) + spec_file_contrib(
            filters,
            files[i],
        ) + spec_digests(filters, files.skip(i + 1)),
    decreases files.len(),
{
    if i == files.len() - 1 {
        assert(files.take(i) =~= files.drop_last());
        assert(files.skip(i + 1) =~= Seq::<InputFileView>::empty());
        assert(spec_digests(filters, files) =~= spec_digests(filters, files.take(i))
            + spec_file_contrib(filters, files[i]) + spec_digests(filters, files.skip(i + 1)));
    } else {
        let dl = files.drop_last();
        lemma_digests_split(filters, dl, i);
        assert(dl.take(i) =~= files.take(i));
        assert(dl.skip(i + 1) =~= files.skip(i + 1).drop_last());
        assert(files.skip(i + 1).last() == files.last());
        assert(spec_digests(filters, files) =~= spec_digests(filters, files.take(i))
            + spec_file_contrib(filters, files[i]) + spec_digests(filters, files.skip(i + 1)));
    }
}

/// The file section splits around any one selector.
pub proof fn lemma_files_section_split(
    selectors: Seq<SelectorView>,
    walked: Seq<Seq<InputFileView>>,
    m: int,
)
    requires
        selectors.len() == walked.len(),
        0 <= m < selectors.len(),
    ensures
        spec_files_section(selectors, walked) == spec_files_section(
            selectors.take(m),
            walked.take(m),
        ) + spec_digests(selectors[m].filters, walked[m]) + spec_files_section(
            selectors.skip(m + 1),
            walked.skip(m + 1),
        ),
    decreases selectors.len(),
{
    if m == selectors.len() - 1 {
        assert(selectors.take(m) =~= selectors.drop_last());
        assert(walked.take(m) =~= walked.drop_last());
        assert(selectors.skip(m + 1) =~= Seq::<SelectorView>::empty());
        assert(walked.skip(m + 1) =~= Seq::<Seq<InputFileView>>::empty());
        assert(spec_files_section(selectors, walked) =~= spec_files_section(
            selectors.take(m),
            walked.take(m),
        ) + spec_digests(selectors[m].filters, walked[m]) + spec_files_section(
            selectors.skip(m + 1),
            walked.skip(m + 1),
        ));
    } else {
        let sdl = selectors.drop_last();
        let wdl = walked.drop_last();
        lemma_files_section_split(sdl, wdl, m);
        assert(sdl.take(m) =~= selectors.take(m));
        assert(wdl.take(m) =~= walked.take(m));
        assert(sdl.skip(m + 1) =~= selectors.skip(m + 1).drop_last());
        assert(wdl.skip(m + 1) =~= walked.skip(m + 1).drop_last());
        assert(selectors.skip(m + 1).last() == selectors.last());
        assert(walked.skip(m + 1).last() == walked.last());
        assert(selectors.skip(m + 1).len() > 0 && walked.skip(m + 1).len() > 0);
        assert(spec_files_section(selectors, walked) =~= spec_files_section(
            selectors.take(m),
            walked.take(m),
        ) + spec_digests(selectors[m].filters, walked[m]) + spec_files_section(
            selectors.skip(m + 1),
            walked.skip(m + 1),
        ));
    }
}

/// Changing the contents of a matched input file, as far as it changes the
/// file's digest, changes the fingerprint's input buffer.  (That two
/// different contents give two different digests is the hash function's
/// collision resistance, which no proof here claims.)
#[verifier::rlimit(60)]
pub proof fn lemma_buffer_sensitive_to_file(
    selectors: Seq<SelectorView>,
    walked1: Seq<Seq<InputFileView>>,
    walked2: Seq<Seq<InputFileView>>,
    runs: Seq<CommandOutputView>,
    envs: Seq<Option<Seq<u8>>>,
    config: Seq<u8>,
    m: int,
    i: int,
)
    requires
        selectors.len() == walked1.len(),
        walked1.len() == walked2.len(),
        0 <= m < walked1.len(),
        0 <= i < walked1[m].len(),
        walked2 == walked1.update(m, walked1[m].update(i, walked2[m][i])),
        walked2[m].len() == walked1[m].len(),
        walked2[m][i].path == walked1[m][i].path,
        spec_matches_any(selectors[m].filters, walked1[m][i].path),
        blake2b128_hex(walked1[m][i].contents) != blake2b128_hex(walked2[m][i].contents),
    ensures
        spec_fingerprint_buffer(selectors, walked1, runs, envs, config)
            != spec_fingerprint_buffer(selectors, walked2, runs, envs, config),
{
    lemma_files_section_split(selectors, walked1, m);
    lemma_files_section_split(selectors, walked2, m);
    assert(walked1.take(m) =~= walked2.take(m));
    assert(walked1.skip(m + 1) =~= walked2.skip(m + 1));
    lemma_digests_split(selectors[m].filters, walked1[m], i);
    lemma_digests_split(selectors[m].filters, walked2[m], i);
    assert(walked1[m].take(i) =~= walked2[m].take(i));
    assert(walked1[m].skip(i + 1) =~= walked2[m].skip(i + 1));
    let fl = selectors[m].filters;
    let d1 = blake2b128_hex(walked1[m][i].contents);
    let d2 = blake2b128_hex(walked2[m][i].contents);
    assert(spec_file_contrib(fl, walked1[m][i]) == d1);
    assert(spec_file_contrib(fl, walked2[m][i]) == d2);
    let p = spec_files_section(selectors.take(m), walked1.take(m)) + spec_digests(
        fl,
        walked1[m].take(i),
    );
    let s = spec_digests(fl, walked1[m].skip(i + 1)) + spec_files_section(
        selectors.skip(m + 1),
        walked1.skip(m + 1),
    ) + spec_stdout_section(runs) + spec_env_section(envs) + config;
    lemma_append_ne(p, d1, d2, s);
    assert(p + d1 + s =~= spec_fingerprint_buffer(selectors, walked1, runs, envs, config));
    assert(p + d2 + s =~= spec_fingerprint_buffer(selectors, walked2, runs, envs, config));
}

/// Inserting a file that matches none of a selector's filters leaves that
/// selector's digest section unchanged.
pub proof fn lemma_digests_insert_unmatched(
    filters: Seq<Seq<char>>,
    files: Seq<InputFileView>,
    pos: int,
    f: InputFileView,
)
    requires
        0 <= pos <= files.len(),
        !spec_matches_any(filters, f.path),
    ensures
        spec_digests(filters, files.insert(pos, f)) == spec_digests(filters, files),
    decreases files.len(),
{
    let ins = files.insert(pos, f);
    if pos == files.len() {
        assert(ins.drop_last() =~= files);
        assert(ins.last() == f);
        assert(spec_digests(filters, ins) =~= spec_digests(filters, files));
    } else {
        assert(ins.last() == files.last());
        assert(ins.drop_last() =~= files.drop_last().insert(pos, f));
        lemma_digests_insert_unmatched(filters, files.drop_last(), pos, f);
        assert(spec_digests(filters, ins) =~= spec_digests(filters, files));
    }
}

/// The file section depends only on each selector's digest bytes.
pub proof fn lemma_files_section_pointwise(
    selectors: Seq<SelectorView>,
    walked1: Seq<Seq<InputFileView>>,
    walked2: Seq<Seq<InputFileView>>,
)
    requires
        selectors.len() == walked1.len(),
        walked1.len() == walked2.len(),
        forall|m: int|
            0 <= m < selectors.len() ==> spec_digests(selectors[m].filters, #[trigger] walked1[m])
                == spec_digests(selectors[m].filters, walked2[m]),
    ensures
        spec_files_section(selectors, walked1) == spec_files_section(selectors, walked2),
    decreases selectors.len(),
{
    if selectors.len() > 0 {
        lemma_files_section_pointwise(
            selectors.drop_last(),
            walked1.drop_last(),
            walked2.drop_last(),
        );
        assert(walked1.last() == walked1[selectors.len() - 1]);
        assert(walked2.last() == walked2[selectors.len() - 1]);
    }
}

/// Adding a file that matches none of its selector's filters leaves the
/// fingerprint unchanged.
pub proof fn lemma_fingerprint_insensitive_to_unmatched_file(
    selectors: Seq<SelectorView>,
    walked1: Seq<Seq<InputFileView>>,
    runs: Seq<CommandOutputView>,
    envs: Seq<Option<Seq<u8>>>,
    config: Seq<u8>,
    m: int,
    pos: int,
    f: InputFileView,
)
    requires
        selectors.len() == walked1.len(),
        0 <= m < walked1.len(),
        0 <= pos <= walked1[m].len(),
        !spec_matches_any(selectors[m].filters, f.path),
    ensures
        spec_fingerprint(
            selectors,
            walked1.update(m, walked1[m].insert(pos, f)),
            runs,
            envs,
            config,
        ) == spec_fingerprint(selectors, walked1, runs, envs, config),
{
    let walked2 = walked1.update(m, walked1[m].insert(pos, f));
    lemma_digests_insert_unmatched(selectors[m].filters, walked1[m], pos, f);
    assert(forall|j: int|
        0 <= j < selectors.len() ==> spec_digests(selectors[j].filters, #[trigger] walked2[j])
            == spec_digests(selectors[j].filters, walked1[j]));
    lemma_files_section_pointwise(selectors, walked2, walked1);
}

/// The values handed to the fingerprint for a list of variable names, read
/// from an environment.
pub open spec fn spec_env_values(names: Seq<Seq<char>>, env: Map<Seq<char>, Seq<u8>>) -> Seq<
    Option<Seq<u8>>,
> {
    Seq::new(
        names.len(),
        |i: int|
            if env.dom().contains(names[i]) {
                Some(env[names[i]])
            } else {
                None
            },
    )
}

/// Setting an environment variable that the input does not name leaves the
/// fingerprint unchanged.
pub proof fn lemma_fingerprint_insensitive_to_unnamed_env(
    selectors: Seq<SelectorView>,
    walked: Seq<Seq<InputFileView>>,
    runs: Seq<CommandOutputView>,
    names: Seq<Seq<char>>,
    env: Map<Seq<char>, Seq<u8>>,
    x: Seq<char>,
    v: Seq<u8>,
    config: Seq<u8>,
)
    requires
        !names.contains(x),
    ensures
        spec_fingerprint(selectors, walked, runs, spec_env_values(names, env.insert(x, v)), config)
            == spec_fingerprint(selectors, walked, runs, spec_env_values(names, env), config),
{
    assert(forall|i: int| 0 <= i < names.len() ==> names[i] != x);
    assert(spec_env_values(names, env.insert(x, v)) =~= spec_env_values(names, env));
}

} // verus!
