//! Where the daemon takes hold of the analyzer that it runs.
use crate::keys::SharedAnalyzerCargoConfigKey;
use vstd::prelude::*;

verus! {

/// The entry point of the analyzer's session loop.
#[derive(Clone, Copy, Debug)]
pub struct RustAnalyzerLspBoundary {
    pub main_loop: &'static str,
}

pub fn rust_analyzer_lsp_boundary() -> (r: RustAnalyzerLspBoundary)
    ensures
        r.main_loop@ == "ra_ap_rust_analyzer::main_loop"@,
{
    RustAnalyzerLspBoundary { main_loop: "ra_ap_rust_analyzer::main_loop" }
}

/// The types inside the analyzer that sessions are built from.
#[derive(Clone, Copy, Debug)]
pub struct RustAnalyzerPrivateBoundary {
    pub global_state: &'static str,
    pub request_dispatcher: &'static str,
    pub notification_dispatcher: &'static str,
}

pub fn rust_analyzer_private_boundary() -> (r: RustAnalyzerPrivateBoundary)
    ensures
        r.global_state@ == "ra_ap_rust_analyzer::global_state::GlobalState"@,
        r.request_dispatcher@ == "ra_ap_rust_analyzer::handlers::dispatch::RequestDispatcher"@,
        r.notification_dispatcher@ == "ra_ap_rust_analyzer::handlers::dispatch::NotificationDispatcher"@,
{
    RustAnalyzerPrivateBoundary {
        global_state: "ra_ap_rust_analyzer::global_state::GlobalState",
        request_dispatcher: "ra_ap_rust_analyzer::handlers::dispatch::RequestDispatcher",
        notification_dispatcher: "ra_ap_rust_analyzer::handlers::dispatch::NotificationDispatcher",
    }
}

/// The part of a world's key that comes from its configuration.
#[derive(Debug)]
pub struct SharedAnalyzerWorldConfigKey {
    pub cargo: SharedAnalyzerCargoConfigKey,
}

/// The part of a view's key that comes from the editor.
#[derive(Debug)]
pub struct SharedAnalyzerAnalysisKey {
    pub initialization_options: Option<String>,
    pub workspace_configuration: Option<String>,
}

impl SharedAnalyzerAnalysisKey {
    /// Sessions do not differ in it: what the editor configures reaches each session by itself.
    pub fn shared() -> (r: Self)
        ensures
            r.initialization_options is None && r.workspace_configuration is None,
    {
        SharedAnalyzerAnalysisKey { initialization_options: None, workspace_configuration: None }
    }
}

/// Whether the long tests are left out, given which of the variables that decide it are set.
pub fn skip_slow_tests(skip_set: bool, run_set: bool, ci_set: bool) -> (r: bool)
    ensures
        r == (skip_set || (!run_set && !ci_set)),
{
    if skip_set {
        return true;
    }
    !run_set && !ci_set
}

/// The place of the first `file://` in a text, from `from` on.
pub open spec fn scheme_at(t: Seq<char>, from: int) -> Option<int>
    decreases t.len() - from,
{
    if from + 7 > t.len() {
        None
    } else if t.subrange(from, from + 7) == "file://"@ {
        Some(from)
    } else {
        scheme_at(t, from + 1)
    }
}

pub open spec fn is_letter(c: char) -> bool {
    ('a' <= c && c <= 'z') || ('A' <= c && c <= 'Z')
}

/// A text whose first file URI, if it starts with a drive, has a slash before it and a small letter
/// for it.
pub open spec fn normalized_uri(t: Seq<char>) -> Seq<char> {
    match scheme_at(t, 0) {
        Some(at) => if at + 8 < t.len() && t[at + 8] == ':' && is_letter(t[at + 7]) {
            t.take(at + 7) + seq!['/', crate::lsp_frame::lower(t[at + 7]), ':'] + t.skip(at + 9)
        } else {
            t
        },
        None => t,
    }
}

fn scheme_is_at(t: &Vec<char>, at: usize) -> (r: bool)
    requires
        at + 7 <= t@.len(),
    ensures
        r == (t@.subrange(at as int, at + 7) == "file://"@),
{
    let want = crate::ordered::chars_of("file://");
    proof {
        reveal_strlit("file://");
    }
    let mut i: usize = 0;
    while i < 7
        invariant
            i <= 7,
            want@ == "file://"@,
            want@.len() == 7,
            at + 7 <= t.len(),
            forall|j: int| 0 <= j < i ==> t@[at + j] == want@[j],
        decreases 7 - i,
    {
        if t[at + i] != want[i] {
            proof {
                assert(t@.subrange(at as int, at + 7)[i as int] != want@[i as int]);
            }
            return false;
        }
        i = i + 1;
    }
    proof {
        assert(t@.subrange(at as int, at + 7) =~= want@);
    }
    true
}

fn find_scheme(t: &Vec<char>) -> (r: Option<usize>)
    ensures
        r is Some <==> scheme_at(t@, 0) is Some,
        r matches Some(at) ==> scheme_at(t@, 0) == Some(at as int) && at + 7 <= t@.len(),
{
    let mut i: usize = 0;
    while t.len() - i >= 7
        invariant
            i <= t.len(),
            scheme_at(t@, 0) == scheme_at(t@, i as int),
        decreases t.len() - i,
    {
        if scheme_is_at(t, i) {
            return Some(i);
        }
        i = i + 1;
    }
    None
}

/// Brings the first file URI of a text into the form in which drives are compared.
pub fn normalize_uri(uri: &String) -> (r: String)
    ensures
        r@ == normalized_uri(uri@),
{
    let t = crate::ordered::chars_of(uri.as_str());
    let at: usize = match find_scheme(&t) {
        Some(at) => at,
        None => {
            return uri.clone();
        },
    };
    if t.len() - at < 9 || t[at + 8] != ':' {
        return uri.clone();
    }
    let drive = t[at + 7];
    if !(('a' <= drive && drive <= 'z') || ('A' <= drive && drive <= 'Z')) {
        return uri.clone();
    }
    let mut r = String::new();
    let mut i: usize = 0;
    proof {
        assert(t@.take(0) =~= Seq::<char>::empty());
    }
    while i < at + 7
        invariant
            i <= at + 7,
            at + 9 <= t.len(),
            r@ == t@.take(i as int),
        decreases at + 7 - i,
    {
        r.push(t[i]);
        proof {
            assert(t@.take(i + 1) =~= t@.take(i as int).push(t@[i as int]));
        }
        i = i + 1;
    }
    r.push('/');
    r.push(crate::lsp_frame::lower_of(drive));
    r.push(':');
    let ghost start = r@;
    proof {
        assert(start =~= t@.take(at + 7) + seq!['/', crate::lsp_frame::lower(drive), ':']);
        assert(start + t@.subrange(at + 9, at + 9) =~= start);
    }
    let mut k: usize = at + 9;
    while k < t.len()
        invariant
            at + 9 <= k <= t.len(),
            r@ == start + t@.subrange(at + 9, k as int),
        decreases t.len() - k,
    {
        r.push(t[k]);
        k = k + 1;
        proof {
            assert(r@ =~= start + t@.subrange(at + 9, k as int));
        }
    }
    proof {
        assert(t@.subrange(at + 9, k as int) =~= t@.skip(at + 9));
    }
    r
}

/// A text without a file URI stays as it is, and so does one whose first file URI has something
/// other than a drive behind the slashes.
pub proof fn law_other_uris_are_kept(t: Seq<char>)
    requires
        forall|at: int|
            0 <= at && at + 8 < t.len() && #[trigger] t.subrange(at, at + 7) == "file://"@ && (forall|k: int|
                0 <= k < at ==> #[trigger] t.subrange(k, k + 7) != "file://"@) ==> t[at + 8] != ':' || !(('a' <= t[at + 7] && t[at + 7]
                <= 'z') || ('A' <= t[at + 7] && t[at + 7] <= 'Z')),
    ensures
        normalized_uri(t) == t,
{
    lemma_scheme_at(t, 0);
}

proof fn lemma_scheme_at(t: Seq<char>, from: int)
    requires
        0 <= from,
    ensures
        match scheme_at(t, from) {
            None => forall|k: int| from <= k && k + 7 <= t.len() ==> #[trigger] t.subrange(k, k + 7) != "file://"@,
            Some(at) => from <= at && at + 7 <= t.len() && t.subrange(at, at + 7) == "file://"@ && forall|k: int|
                from <= k < at ==> #[trigger] t.subrange(k, k + 7) != "file://"@,
        },
    decreases t.len() - from,
{
    if from + 7 <= t.len() && t.subrange(from, from + 7) != "file://"@ {
        lemma_scheme_at(t, from + 1);
    }
}

/// A drive behind the first `file://` gets a slash before it and a small letter. What stands before
/// and behind stays.
pub proof fn law_drives_are_written_in_one_way(t: Seq<char>, at: int)
    requires
        0 <= at,
        at + 8 < t.len(),
        t.subrange(at, at + 7) == "file://"@,
        forall|k: int| 0 <= k < at ==> #[trigger] t.subrange(k, k + 7) != "file://"@,
        t[at + 8] == ':',
        ('a' <= t[at + 7] && t[at + 7] <= 'z') || ('A' <= t[at + 7] && t[at + 7] <= 'Z'),
    ensures
        ({
            let r = normalized_uri(t);
            &&& r.len() == t.len() + 1
            &&& forall|k: int| 0 <= k < at + 7 ==> #[trigger] r[k] == t[k]
            &&& r[at + 7] == '/'
            &&& 'a' <= r[at + 8] && r[at + 8] <= 'z'
            &&& 'a' <= t[at + 7] && t[at + 7] <= 'z' ==> r[at + 8] == t[at + 7]
            &&& 'A' <= t[at + 7] && t[at + 7] <= 'Z' ==> r[at + 8] as int == t[at + 7] as int + 32
            &&& forall|k: int| at + 8 <= k < t.len() ==> #[trigger] t[k] == r[k + 1]
        }),
{
    lemma_scheme_at(t, 0);
    let found = scheme_at(t, 0);
    assert(found is Some) by {
        if found is None {
            assert(t.subrange(at, at + 7) != "file://"@);
        }
    }
    let first = found->0;
    assert(first == at) by {
        if first < at {
            assert(t.subrange(first, first + 7) != "file://"@);
        } else if at < first {
            assert(t.subrange(at, at + 7) != "file://"@);
        }
    }
}

} // verus!
