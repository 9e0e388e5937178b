//! Paths as the shared world compares them.
use vstd::prelude::*;
use vstd::utf8::encode_utf8;

verus! {

/// A path as a client or Cargo wrote it, and the canonical form by which paths are compared.
#[derive(Debug)]
pub struct FilePath {
    pub text: String,
    pub key: String,
}

#[verifier::ext_equal]
pub struct PathView {
    pub text: Seq<char>,
    pub key: Seq<char>,
}

impl View for FilePath {
    type V = PathView;

    open spec fn view(&self) -> PathView {
        PathView { text: self.text@, key: self.key@ }
    }
}

impl PathView {
    /// The canonical form as a path of its own.
    pub open spec fn normalized(self) -> PathView {
        PathView { text: self.key, key: self.key }
    }
}

impl FilePath {
    pub fn normalized(&self) -> (r: FilePath)
        ensures
            r@ == self@.normalized(),
    {
        FilePath { text: self.key.clone(), key: self.key.clone() }
    }

    pub fn duplicate(&self) -> (r: FilePath)
        ensures
            r@ == self@,
    {
        FilePath { text: self.text.clone(), key: self.key.clone() }
    }

    pub fn same(&self, other: &FilePath) -> (r: bool)
        ensures
            r == (self@ == other@),
    {
        self.text == other.text && self.key == other.key
    }
}

#[derive(Clone, Copy, Debug, PartialEq, Eq, Structural)]
pub enum LineEndings {
    Unix,
    Dos,
}

pub open spec fn is_separator(byte: u8) -> bool {
    byte == 0x2f || byte == 0x5c
}

/// How many bytes two texts have in common at the front.
pub open spec fn common_bytes(a: Seq<u8>, b: Seq<u8>) -> nat
    decreases a.len(),
{
    if a.len() == 0 || b.len() == 0 || a[0] != b[0] {
        0
    } else {
        1 + common_bytes(a.drop_first(), b.drop_first())
    }
}

/// The place behind the last separator among the first `n` bytes.
pub open spec fn behind_separator(a: Seq<u8>, n: nat) -> nat
    decreases n,
{
    if n == 0 {
        0
    } else if is_separator(a[n - 1]) {
        n
    } else {
        behind_separator(a, (n - 1) as nat)
    }
}

/// A whole text is in common with another only where that one ends there too, or goes on with a
/// separator.
pub open spec fn ends_at_boundary(a: Seq<u8>, b: Seq<u8>, n: nat) -> bool {
    &&& n == a.len() || n == b.len()
    &&& a.len() == b.len() || (n < a.len() && is_separator(a[n as int])) || (n < b.len() && is_separator(b[n as int]))
}

/// The length of the path that two paths have in common, in bytes.
pub open spec fn common_path(a: Seq<u8>, b: Seq<u8>) -> nat {
    let n = common_bytes(a, b);
    if ends_at_boundary(a, b, n) {
        n
    } else {
        behind_separator(a, n)
    }
}

proof fn lemma_common_bytes_step(a: Seq<u8>, b: Seq<u8>, i: int)
    requires
        0 <= i < a.len(),
        i < b.len(),
        a[i] == b[i],
    ensures
        common_bytes(a.skip(i), b.skip(i)) == 1 + common_bytes(a.skip(i + 1), b.skip(i + 1)),
{
    assert(a.skip(i).drop_first() =~= a.skip(i + 1));
    assert(b.skip(i).drop_first() =~= b.skip(i + 1));
}

/// The length in bytes of the path that two paths have in common.
pub fn common_path_prefix_len(left: &str, right: &str) -> (r: usize)
    ensures
        r == common_path(encode_utf8(left@), encode_utf8(right@)),
{
    let left = left.as_bytes();
    let right = right.as_bytes();
    let mut index: usize = 0;
    let mut last_separator: usize = 0;
    let end: usize = if left.len() < right.len() {
        left.len()
    } else {
        right.len()
    };
    proof {
        assert(left@.skip(0) =~= left@);
        assert(right@.skip(0) =~= right@);
    }
    while index < end && left[index] == right[index]
        invariant
            index <= end,
            end <= left@.len(),
            end <= right@.len(),
            common_bytes(left@, right@) == index + common_bytes(left@.skip(index as int), right@.skip(index as int)),
            last_separator == behind_separator(left@, index as nat),
        decreases end - index,
    {
        proof {
            lemma_common_bytes_step(left@, right@, index as int);
        }
        if left[index] == 0x2f || left[index] == 0x5c {
            last_separator = index + 1;
        }
        index = index + 1;
    }
    proof {
        assert(common_bytes(left@.skip(index as int), right@.skip(index as int)) == 0);
    }
    let left_goes_on = index < left.len() && (left[index] == 0x2f || left[index] == 0x5c);
    let right_goes_on = index < right.len() && (right[index] == 0x2f || right[index] == 0x5c);
    if index == end && (left.len() == right.len() || left_goes_on || right_goes_on) {
        return index;
    }
    last_separator
}

proof fn lemma_common_bytes_symmetric(a: Seq<u8>, b: Seq<u8>)
    ensures
        common_bytes(a, b) == common_bytes(b, a),
        common_bytes(a, b) <= a.len(),
        common_bytes(a, b) <= b.len(),
        forall|i: int| 0 <= i < common_bytes(a, b) ==> a[i] == b[i],
    decreases a.len(),
{
    if a.len() > 0 && b.len() > 0 && a[0] == b[0] {
        lemma_common_bytes_symmetric(a.drop_first(), b.drop_first());
        assert forall|i: int| 0 <= i < common_bytes(a, b) implies a[i] == b[i] by {
            if i > 0 {
                assert(a.drop_first()[i - 1] == b.drop_first()[i - 1]);
            }
        }
    }
}

proof fn lemma_behind_separator_agrees(a: Seq<u8>, b: Seq<u8>, n: nat)
    requires
        n <= a.len(),
        n <= b.len(),
        forall|i: int| 0 <= i < n ==> a[i] == b[i],
    ensures
        behind_separator(a, n) == behind_separator(b, n),
        behind_separator(a, n) <= n,
    decreases n,
{
    if n > 0 {
        lemma_behind_separator_agrees(a, b, (n - 1) as nat);
    }
}

/// The common path does not depend on the order of the two paths, and is no longer than either.
pub proof fn law_common_path_is_symmetric(a: Seq<u8>, b: Seq<u8>)
    ensures
        common_path(a, b) == common_path(b, a),
        common_path(a, b) <= a.len(),
        common_path(a, b) <= b.len(),
{
    lemma_common_bytes_symmetric(a, b);
    lemma_behind_separator_agrees(a, b, common_bytes(a, b));
}

/// The two paths agree on their common path, which is a whole path of both or ends behind a
/// separator.
pub proof fn law_common_path_is_common(a: Seq<u8>, b: Seq<u8>)
    ensures
        a.take(common_path(a, b) as int) == b.take(common_path(a, b) as int),
        common_path(a, b) == 0 || common_path(a, b) == a.len() || common_path(a, b) == b.len() || is_separator(
            a[common_path(a, b) - 1],
        ),
{
    lemma_common_bytes_symmetric(a, b);
    lemma_behind_separator_agrees(a, b, common_bytes(a, b));
    lemma_behind_is_separator(a, common_bytes(a, b));
    assert(a.take(common_path(a, b) as int) =~= b.take(common_path(a, b) as int));
}

proof fn lemma_behind_is_separator(a: Seq<u8>, n: nat)
    requires
        n <= a.len(),
    ensures
        behind_separator(a, n) > 0 ==> is_separator(a[behind_separator(a, n) - 1]),
    decreases n,
{
    if n > 0 {
        lemma_behind_is_separator(a, (n - 1) as nat);
    }
}

proof fn lemma_behind_latest(a: Seq<u8>, n: nat, k: int)
    requires
        0 < k <= n <= a.len(),
        is_separator(a[k - 1]),
    ensures
        k <= behind_separator(a, n),
    decreases n,
{
    if k < n {
        lemma_behind_latest(a, (n - 1) as nat, k);
    }
}

proof fn lemma_common_bytes_longest(a: Seq<u8>, b: Seq<u8>, n: int)
    requires
        0 <= n <= a.len(),
        n <= b.len(),
        forall|i: int| 0 <= i < n ==> #[trigger] a[i] == b[i],
    ensures
        n <= common_bytes(a, b),
    decreases a.len(),
{
    if n > 0 {
        assert(a[0] == b[0]);
        let (x, y) = (a.drop_first(), b.drop_first());
        assert forall|i: int| 0 <= i < n - 1 implies #[trigger] x[i] == y[i] by {
            assert(a[i + 1] == b[i + 1]);
        }
        lemma_common_bytes_longest(x, y, n - 1);
    }
}

/// No longer path is common: where both paths begin with the same bytes up to a slash or a backslash, or
/// up to the end of one of them where the other ends too or goes on with one, the common path is at
/// least as long.
pub proof fn law_common_path_is_longest(a: Seq<u8>, b: Seq<u8>, n: int)
    requires
        0 < n <= a.len(),
        n <= b.len(),
        forall|i: int| 0 <= i < n ==> #[trigger] a[i] == b[i],
        a[n - 1] == 0x2f || a[n - 1] == 0x5c || (n == a.len() && n == b.len()) || (n == a.len() && n < b.len() && (b[n] == 0x2f
            || b[n] == 0x5c)) || (n == b.len() && n < a.len() && (a[n] == 0x2f || a[n] == 0x5c)),
    ensures
        n <= common_path(a, b),
{
    lemma_common_bytes_longest(a, b, n);
    lemma_common_bytes_symmetric(a, b);
    if a[n - 1] == 0x2f || a[n - 1] == 0x5c {
        lemma_behind_latest(a, common_bytes(a, b), n);
    }
}

/// The common path ends where a name ends: behind a slash or a backslash, or at the end of one path where
/// the other ends too or goes on with one.
pub proof fn law_common_path_ends_with_a_name(a: Seq<u8>, b: Seq<u8>)
    ensures
        ({
            let n = common_path(a, b) as int;
            n == 0 || a[n - 1] == 0x2f || a[n - 1] == 0x5c || (n == a.len() && n == b.len()) || (n == a.len() && n < b.len() && (
            b[n] == 0x2f || b[n] == 0x5c)) || (n == b.len() && n < a.len() && (a[n] == 0x2f || a[n] == 0x5c))
        }),
{
    lemma_common_bytes_symmetric(a, b);
    lemma_behind_separator_agrees(a, b, common_bytes(a, b));
    lemma_behind_is_separator(a, common_bytes(a, b));
}

/// A path has itself in common with itself.
pub proof fn law_common_path_of_itself(a: Seq<u8>)
    ensures
        common_path(a, a) == a.len(),
{
    lemma_common_bytes_self(a);
}

proof fn lemma_common_bytes_self(a: Seq<u8>)
    ensures
        common_bytes(a, a) == a.len(),
    decreases a.len(),
{
    if a.len() > 0 {
        lemma_common_bytes_self(a.drop_first());
    }
}

/// Whether `text` starts with `prefix`.
pub fn starts_with(text: &str, prefix: &str) -> (r: bool)
    ensures
        r == prefix@.is_prefix_of(text@),
{
    let all = crate::ordered::chars_of(text);
    let front = crate::ordered::chars_of(prefix);
    if front.len() > all.len() {
        return false;
    }
    let mut i: usize = 0;
    while i < front.len()
        invariant
            i <= front.len(),
            front.len() <= all.len(),
            all@ == text@,
            front@ == prefix@,
            forall|j: int| 0 <= j < i ==> front@[j] == all@[j],
        decreases front.len() - i,
    {
        if front[i] != all[i] {
            return false;
        }
        i = i + 1;
    }
    true
}

/// The text behind a prefix, if it starts with the prefix.
pub fn strip_prefix(text: &str, prefix: &str) -> (r: Option<String>)
    ensures
        match r {
            Some(rest) => text@ == prefix@ + rest@,
            None => !prefix@.is_prefix_of(text@),
        },
{
    if !starts_with(text, prefix) {
        return None;
    }
    let n = crate::ordered::chars_of(prefix).len();
    let m = crate::ordered::chars_of(text).len();
    let rest = text.substring_char(n, m);
    proof {
        assert(text@ =~= prefix@ + rest@);
    }
    Some(String::from_str(rest))
}

pub open spec fn verbatim_stripped(path: Seq<char>) -> Seq<char> {
    if "\\\\?\\UNC\\"@.is_prefix_of(path) {
        "\\\\"@ + path.skip("\\\\?\\UNC\\"@.len() as int)
    } else if "\\\\?\\"@.is_prefix_of(path) {
        path.skip("\\\\?\\"@.len() as int)
    } else {
        path
    }
}

/// Drops the verbatim prefix that Windows puts before canonical paths. On other systems a path has
/// none, and stays as it is.
pub fn strip_verbatim_prefix(path: String, windows: bool) -> (r: String)
    ensures
        r@ == (if windows { verbatim_stripped(path@) } else { path@ }),
{
    if !windows {
        return path;
    }
    match strip_prefix(path.as_str(), "\\\\?\\UNC\\") {
        Some(rest) => {
            let mut r = String::from_str("\\\\");
            r.append(rest.as_str());
            proof {
                lemma_rest(path@, "\\\\?\\UNC\\"@, rest@);
            }
            return r;
        },
        None => {},
    }
    match strip_prefix(path.as_str(), "\\\\?\\") {
        Some(rest) => {
            proof {
                lemma_rest(path@, "\\\\?\\"@, rest@);
            }
            rest
        },
        None => path,
    }
}

proof fn lemma_rest(text: Seq<char>, prefix: Seq<char>, rest: Seq<char>)
    requires
        text == prefix + rest,
    ensures
        prefix.is_prefix_of(text),
        text.skip(prefix.len() as int) == rest,
{
    assert(text.take(prefix.len() as int) =~= prefix);
    assert(text.skip(prefix.len() as int) =~= rest);
}

/// A drive stands at the place: a letter with a colon behind it.
pub open spec fn drive_at(path: Seq<char>, at: int) -> bool {
    &&& at + 1 < path.len()
    &&& ('a' <= path[at] && path[at] <= 'z') || ('A' <= path[at] && path[at] <= 'Z')
    &&& path[at + 1] == ':'
}

/// A verbatim prefix is followed by a drive, and nothing or a separator comes after it.
pub open spec fn verbatim_drive(path: Seq<char>) -> bool {
    &&& "\\\\?\\"@.is_prefix_of(path)
    &&& drive_at(path, 4)
    &&& path.len() == 6 || path[6] == '\\' || path[6] == '/'
}

pub open spec fn upper(c: char) -> char {
    if 'a' <= c && c <= 'z' {
        ((c as u8) - 32) as u8 as char
    } else {
        c
    }
}

/// The path with the letter of its drive in upper case.
pub open spec fn drive_patched(path: Seq<char>) -> Seq<char> {
    if verbatim_drive(path) {
        path.update(4, upper(path[4]))
    } else if drive_at(path, 0) {
        path.update(0, upper(path[0]))
    } else {
        path
    }
}

fn upper_of(c: char) -> (r: char)
    ensures
        r == upper(c),
{
    if 'a' <= c && c <= 'z' {
        ((c as u8) - 32) as char
    } else {
        c
    }
}

fn has_drive(path: &Vec<char>, at: usize) -> (r: bool)
    requires
        at < 5,
    ensures
        r == drive_at(path@, at as int),
{
    if at + 1 >= path.len() {
        return false;
    }
    let c = path[at];
    (('a' <= c && c <= 'z') || ('A' <= c && c <= 'Z')) && path[at + 1] == ':'
}

fn with_upper(path: &str, all: &Vec<char>, at: usize) -> (r: String)
    requires
        all@ == path@,
        at < all.len(),
    ensures
        r@ == path@.update(at as int, upper(path@[at as int])),
{
    let mut r = String::from_str(path.substring_char(0, at));
    r.push(upper_of(all[at]));
    r.append(path.substring_char(at + 1, all.len()));
    proof {
        assert(r@ =~= path@.update(at as int, upper(path@[at as int])));
    }
    r
}

/// Puts the letter of a path's drive in upper case. Only paths of Windows have a drive.
pub fn patch_path_prefix(path: String, windows: bool) -> (r: String)
    ensures
        r@ == (if windows { drive_patched(path@) } else { path@ }),
{
    if !windows {
        return path;
    }
    let all = crate::ordered::chars_of(path.as_str());
    proof {
        reveal_strlit("\\\\?\\");
    }
    if starts_with(path.as_str(), "\\\\?\\") && has_drive(&all, 4) && (all.len() == 6 || all[6] == '\\' || all[6] == '/') {
        return with_upper(path.as_str(), &all, 4);
    }
    if has_drive(&all, 0) {
        return with_upper(path.as_str(), &all, 0);
    }
    path
}

/// Patching a path a second time changes nothing.
pub proof fn law_patched_prefix_is_stable(path: Seq<char>)
    ensures
        drive_patched(drive_patched(path)) == drive_patched(path),
{
    let once = drive_patched(path);
    reveal_strlit("\\\\?\\");
    assert(once.len() == path.len());
    if verbatim_drive(path) {
        assert("\\\\?\\"@.is_prefix_of(once)) by {
            assert(once.take(4) =~= path.take(4));
        }
        assert(verbatim_drive(once));
        assert(once.update(4, upper(once[4])) =~= once);
    } else if drive_at(path, 0) {
        assert(!verbatim_drive(once));
        assert(once.update(0, upper(once[0])) =~= once);
    }
}

pub open spec fn separator(windows: bool) -> char {
    if windows {
        '\\'
    } else {
        '/'
    }
}

/// A path is normalised from its deepest ancestor that the file system knows: that ancestor in
/// canonical form, and the names below it as they were.
pub open spec fn joined(base: Seq<char>, names: Seq<Seq<char>>, windows: bool) -> Seq<char>
    decreases names.len(),
{
    if names.len() == 0 {
        base
    } else {
        let rest = joined(base, names.drop_last(), windows);
        let name = names.last();
        if rest.len() > 0 && rest.last() == separator(windows) {
            rest + name
        } else {
            rest.push(separator(windows)) + name
        }
    }
}

/// Puts names below a base, outermost first.
pub fn join_names(base: String, names: &Vec<String>, windows: bool) -> (r: String)
    ensures
        r@ == joined(base@, names.deep_view(), windows),
{
    let mut r = base;
    let ghost all = names.deep_view();
    let ghost start = base@;
    let mut i: usize = 0;
    proof {
        assert(all.take(0) =~= Seq::empty());
    }
    while i < names.len()
        invariant
            i <= names.len(),
            all == names.deep_view(),
            r@ == joined(start, all.take(i as int), windows),
        decreases names.len() - i,
    {
        proof {
            assert(all.take(i + 1).drop_last() =~= all.take(i as int));
            assert(all.take(i + 1).last() == names@[i as int]@);
        }
        let chars = crate::ordered::chars_of(r.as_str());
        if !(chars.len() > 0 && chars[chars.len() - 1] == (if windows { '\\' } else { '/' })) {
            if windows {
                r.append("\\");
            } else {
                r.append("/");
            }
            proof {
                reveal_strlit("\\");
                reveal_strlit("/");
                assert(r@ =~= joined(start, all.take(i as int), windows).push(separator(windows)));
            }
        }
        r.append(names[i].as_str());
        i = i + 1;
    }
    proof {
        assert(all.take(i as int) =~= all);
    }
    r
}

/// The normal form of a path, given the canonical forms of its ancestors as far as the file system
/// has them, the path itself first, and the name of each below its parent. A path without a known
/// ancestor stays as it is.
pub open spec fn normal_form(
    path: Seq<char>,
    ancestors: Seq<Option<Seq<char>>>,
    names: Seq<Seq<char>>,
    windows: bool,
    from: int,
) -> Seq<char>
    decreases ancestors.len() - from,
{
    if from >= ancestors.len() || from > names.len() {
        path
    } else {
        match ancestors[from] {
            Some(canonical) => joined(
                if windows {
                    verbatim_stripped(canonical)
                } else {
                    canonical
                },
                names.take(from).reverse(),
                windows,
            ),
            None => normal_form(path, ancestors, names, windows, from + 1),
        }
    }
}

pub fn normalize_fs_path(
    path: String,
    ancestors: &Vec<Option<String>>,
    names: &Vec<String>,
    windows: bool,
) -> (r: String)
    requires
        ancestors.len() <= names.len() + 1,
    ensures
        r@ == normal_form(path@, ancestors.deep_view(), names.deep_view(), windows, 0),
{
    let mut i: usize = 0;
    while i < ancestors.len()
        invariant
            i <= ancestors.len(),
            ancestors.len() <= names.len() + 1,
            normal_form(path@, ancestors.deep_view(), names.deep_view(), windows, 0) == normal_form(
                path@,
                ancestors.deep_view(),
                names.deep_view(),
                windows,
                i as int,
            ),
        decreases ancestors.len() - i,
    {
        match &ancestors[i] {
            Some(canonical) => {
                let base = strip_verbatim_prefix(canonical.clone(), windows);
                let mut below: Vec<String> = Vec::new();
                let mut j: usize = i;
                proof {
                    assert(below.deep_view() =~= names.deep_view().subrange(i as int, i as int).reverse());
                }
                while j > 0
                    invariant
                        j <= i,
                        i <= names.len(),
                        below.deep_view() == names.deep_view().subrange(j as int, i as int).reverse(),
                    decreases j,
                {
                    let ghost before = below.deep_view();
                    j = j - 1;
                    below.push(names[j].clone());
                    proof {
                        assert(below.deep_view() =~= before.push(names.deep_view()[j as int]));
                        assert(below.deep_view() =~= names.deep_view().subrange(j as int, i as int).reverse());
                    }
                }
                proof {
                    assert(names.deep_view().subrange(0, i as int) =~= names.deep_view().take(i as int));
                    assert(ancestors.deep_view()[i as int] == Some(canonical@));
                }
                return join_names(base, &below, windows);
            },
            None => {
                proof {
                    assert(ancestors.deep_view()[i as int] is None);
                }
            },
        }
        i = i + 1;
    }
    path
}

pub open spec fn file_name(path: Seq<char>) -> Seq<char>
    decreases path.len(),
{
    if path.len() == 0 || path.last() == '/' || path.last() == '\\' {
        Seq::empty()
    } else {
        file_name(path.drop_last()).push(path.last())
    }
}

/// Whether a path names a configuration file of the analyzer.
pub open spec fn is_ratoml(path: Seq<char>) -> bool {
    file_name(path) == "rust-analyzer.toml"@
}

/// Whether a path names a Rust source: its last part is more than the extension alone.
pub open spec fn is_rust(path: Seq<char>) -> bool {
    let name = file_name(path);
    name.len() > 3 && name[name.len() - 3] == '.' && name[name.len() - 2] == 'r' && name[name.len() - 1] == 's'
}

pub fn names_rust(path: &String) -> (r: bool)
    ensures
        r == is_rust(path@),
{
    let chars = crate::ordered::chars_of(path.as_str());
    let n = chars.len();
    if n < 4 {
        proof {
            lemma_name_is_short(chars@);
        }
        return false;
    }
    let named = chars[n - 3] == '.' && chars[n - 2] == 'r' && chars[n - 1] == 's' && chars[n - 4] != '/' && chars[n - 4] != '\\';
    proof {
        lemma_name_tail(chars@);
    }
    named
}

proof fn lemma_name_is_short(path: Seq<char>)
    ensures
        file_name(path).len() <= path.len(),
        forall|j: int| 0 < j <= file_name(path).len() ==> file_name(path)[file_name(path).len() - j] == #[trigger] path[path.len() - j],
        forall|j: int| 0 < j <= file_name(path).len() ==> (#[trigger] path[path.len() - j]) != '/' && path[path.len() - j] != '\\',
        file_name(path).len() < path.len() ==> path[path.len() - file_name(path).len() - 1] == '/' || path[path.len() - file_name(
            path,
        ).len() - 1] == '\\',
    decreases path.len(),
{
    if path.len() > 0 && path.last() != '/' && path.last() != '\\' {
        let front = path.drop_last();
        lemma_name_is_short(front);
        let name = file_name(path);
        assert forall|j: int| 0 < j <= name.len() implies name[name.len() - j] == #[trigger] path[path.len() - j] && path[path.len() - j]
            != '/' && path[path.len() - j] != '\\' by {
            if j > 1 {
                assert(front[front.len() - (j - 1)] == path[path.len() - j]);
            }
        }
    }
}

proof fn lemma_name_tail(path: Seq<char>)
    requires
        path.len() >= 4,
    ensures
        is_rust(path) == (path[path.len() - 3] == '.' && path[path.len() - 2] == 'r' && path[path.len() - 1] == 's' && path[path.len()
            - 4] != '/' && path[path.len() - 4] != '\\'),
{
    lemma_name_is_short(path);
    let name = file_name(path);
    let n = path.len();
    if name.len() > 3 {
        assert(path[n - 4] != '/' && path[n - 3] != '/' && path[n - 2] != '/' && path[n - 1] != '/');
        assert(name[name.len() - 3] == path[n - 3]);
        assert(name[name.len() - 2] == path[n - 2]);
        assert(name[name.len() - 1] == path[n - 1]);
    } else if name.len() < n {
        assert(path[n - name.len() - 1] == '/' || path[n - name.len() - 1] == '\\');
    }
}

pub fn names_ratoml(path: &String) -> (r: bool)
    ensures
        r == is_ratoml(path@),
{
    let chars = crate::ordered::chars_of(path.as_str());
    let want = crate::ordered::chars_of("rust-analyzer.toml");
    let mut at: usize = chars.len();
    proof {
        assert(chars@.take(at as int) =~= chars@);
        assert(file_name(chars@) + chars@.skip(at as int) =~= file_name(chars@));
    }
    while at > 0 && chars[at - 1] != '/' && chars[at - 1] != '\\'
        invariant
            at <= chars.len(),
            file_name(chars@) == file_name(chars@.take(at as int)) + chars@.skip(at as int),
        decreases at,
    {
        proof {
            let n = at as int;
            assert(chars@.take(n).drop_last() =~= chars@.take(n - 1));
            assert(file_name(chars@.take(n - 1)).push(chars@[n - 1]) + chars@.skip(n) =~= file_name(chars@.take(n - 1)) + chars@.skip(
                n - 1,
            ));
        }
        at = at - 1;
    }
    proof {
        assert(file_name(chars@.take(at as int)) =~= Seq::empty());
        assert(file_name(chars@) =~= chars@.skip(at as int));
    }
    if chars.len() - at != want.len() {
        return false;
    }
    let mut i: usize = 0;
    while i < want.len()
        invariant
            i <= want.len(),
            want@ == "rust-analyzer.toml"@,
            chars@ == path@,
            at <= chars.len(),
            chars.len() - at == want.len(),
            file_name(chars@) == chars@.skip(at as int),
            forall|j: int| 0 <= j < i ==> chars@.skip(at as int)[j] == want@[j],
        decreases want.len() - i,
    {
        if chars[at + i] != want[i] {
            proof {
                assert(chars@.skip(at as int)[i as int] != want@[i as int]);
            }
            return false;
        }
        i = i + 1;
    }
    proof {
        assert(chars@.skip(at as int) =~= want@);
    }
    true
}

proof fn lemma_normal_form(path: Seq<char>, ancestors: Seq<Option<Seq<char>>>, names: Seq<Seq<char>>, windows: bool, from: int, at: int)
    requires
        0 <= from <= at < ancestors.len(),
        at <= names.len(),
        ancestors[at] is Some,
        forall|i: int| from <= i < at ==> (#[trigger] ancestors[i]) is None,
    ensures
        normal_form(path, ancestors, names, windows, from) == joined(
            if windows {
                verbatim_stripped(ancestors[at]->0)
            } else {
                ancestors[at]->0
            },
            names.take(at).reverse(),
            windows,
        ),
    decreases at - from,
{
    if from < at {
        assert(ancestors[from] is None);
        lemma_normal_form(path, ancestors, names, windows, from + 1, at);
    }
}

/// The normal form of a path is its own normal form: what lies below the first ancestor that the
/// file system has is not there, and that ancestor's canonical form is its own.
pub proof fn law_normal_form_is_stable(
    path: Seq<char>,
    ancestors: Seq<Option<Seq<char>>>,
    names: Seq<Seq<char>>,
    again_ancestors: Seq<Option<Seq<char>>>,
    again_names: Seq<Seq<char>>,
    windows: bool,
    at: int,
)
    requires
        0 <= at < ancestors.len(),
        at <= names.len(),
        ancestors[at] is Some,
        forall|i: int| 0 <= i < at ==> (#[trigger] ancestors[i]) is None,
        at < again_ancestors.len(),
        at <= again_names.len(),
        again_ancestors[at] == ancestors[at],
        forall|i: int| 0 <= i < at ==> (#[trigger] again_ancestors[i]) is None,
        again_names.take(at) == names.take(at),
    ensures
        ({
            let once = normal_form(path, ancestors, names, windows, 0);
            normal_form(once, again_ancestors, again_names, windows, 0) == once
        }),
{
    let once = normal_form(path, ancestors, names, windows, 0);
    lemma_normal_form(path, ancestors, names, windows, 0, at);
    lemma_normal_form(once, again_ancestors, again_names, windows, 0, at);
}

proof fn lemma_file_name(dir: Seq<char>, name: Seq<char>)
    requires
        dir.len() > 0 ==> dir.last() == '/' || dir.last() == '\\',
        forall|i: int| 0 <= i < name.len() ==> #[trigger] name[i] != '/' && name[i] != '\\',
    ensures
        file_name(dir + name) == name,
    decreases name.len(),
{
    let path = dir + name;
    if name.len() == 0 {
        assert(path =~= dir);
        assert(file_name(path) =~= name);
    } else {
        assert(path.drop_last() =~= dir + name.drop_last());
        lemma_file_name(dir, name.drop_last());
        assert(name[name.len() - 1] != '/');
        assert(file_name(path) =~= name);
    }
}

proof fn lemma_split_name(path: Seq<char>)
    ensures
        ({
            let n = path.len() - file_name(path).len();
            &&& 0 <= n <= path.len()
            &&& file_name(path) == path.skip(n)
            &&& n > 0 ==> path[n - 1] == '/' || path[n - 1] == '\\'
            &&& forall|i: int| n <= i < path.len() ==> #[trigger] path[i] != '/' && path[i] != '\\'
        }),
    decreases path.len(),
{
    if path.len() == 0 || path.last() == '/' || path.last() == '\\' {
        assert(file_name(path) =~= path.skip(path.len() as int));
    } else {
        let front = path.drop_last();
        lemma_split_name(front);
        let n = path.len() - file_name(path).len();
        assert(file_name(path) =~= path.skip(n));
        assert forall|i: int| n <= i < path.len() implies #[trigger] path[i] != '/' && path[i] != '\\' by {
            if i < front.len() {
                assert(front[i] == path[i]);
            }
        }
    }
}

/// A settings file is named so: its path is that name, or ends in it behind a slash or a backslash.
pub proof fn law_settings_files_go_by_their_name(path: Seq<char>)
    ensures
        ({
            let name = "rust-analyzer.toml"@;
            is_ratoml(path) <==> path == name || exists|n: int|
                0 < n <= path.len() && (#[trigger] path[n - 1] == '/' || path[n - 1] == '\\') && path.skip(n) == name
        }),
{
    let name = "rust-analyzer.toml"@;
    reveal_strlit("rust-analyzer.toml");
    assert forall|i: int| 0 <= i < name.len() implies #[trigger] name[i] != '/' && name[i] != '\\' by {}
    lemma_split_name(path);
    if is_ratoml(path) {
        let n = path.len() - name.len();
        if n == 0 {
            assert(path.skip(0) =~= path);
        } else {
            assert(path[n - 1] == '/' || path[n - 1] == '\\');
        }
    }
    if path == name {
        assert(Seq::<char>::empty() + name =~= path);
        lemma_file_name(Seq::empty(), name);
    }
    if exists|n: int| 0 < n <= path.len() && (#[trigger] path[n - 1] == '/' || path[n - 1] == '\\') && path.skip(n) == name {
        let n = choose|n: int| 0 < n <= path.len() && (#[trigger] path[n - 1] == '/' || path[n - 1] == '\\') && path.skip(n) == name;
        assert(path.take(n) + path.skip(n) =~= path);
        assert(path.take(n).last() == path[n - 1]);
        lemma_file_name(path.take(n), name);
    }
}

/// A Rust source ends in its extension behind at least one letter that is no slash or backslash.
pub proof fn law_rust_sources_go_by_their_extension(path: Seq<char>)
    ensures
        is_rust(path) <==> path.len() > 3 && path[path.len() - 4] != '/' && path[path.len() - 4] != '\\' && path[path.len() - 3] == '.'
            && path[path.len() - 2] == 'r' && path[path.len() - 1] == 's',
{
    lemma_split_name(path);
    let name = file_name(path);
    let n = path.len() - name.len();
    if is_rust(path) {
        let k = path.len() - 4;
        assert(n <= k < path.len());
        assert(path[k] != '/');
        assert(name[name.len() - 3] == path[path.len() - 3]);
        assert(name[name.len() - 2] == path[path.len() - 2]);
        assert(name[name.len() - 1] == path[path.len() - 1]);
    } else if path.len() > 3 && path[path.len() - 4] != '/' && path[path.len() - 4] != '\\' && path[path.len() - 3] == '.'
        && path[path.len() - 2] == 'r' && path[path.len() - 1] == 's' {
        if name.len() <= 3 {
            assert(n >= path.len() - 3);
            assert(path[n - 1] == '/' || path[n - 1] == '\\');
        }
        assert(name[name.len() - 3] == path[path.len() - 3]);
        assert(name[name.len() - 2] == path[path.len() - 2]);
        assert(name[name.len() - 1] == path[path.len() - 1]);
    }
}

/// A verbatim prefix is dropped: that of a share becomes two backslashes, and that of a drive nothing.
/// Another path stays as it is.
pub proof fn law_verbatim_prefix_is_dropped(path: Seq<char>, rest: Seq<char>)
    ensures
        verbatim_stripped("\\\\?\\UNC\\"@ + rest) == "\\\\"@ + rest,
        !"UNC\\"@.is_prefix_of(rest) ==> verbatim_stripped("\\\\?\\"@ + rest) == rest,
        !"\\\\?\\"@.is_prefix_of(path) ==> verbatim_stripped(path) == path,
{
    reveal_strlit("\\\\?\\UNC\\");
    reveal_strlit("\\\\?\\");
    reveal_strlit("UNC\\");
    let share = "\\\\?\\UNC\\"@;
    let drive = "\\\\?\\"@;
    let unc = "UNC\\"@;
    assert(share =~= drive + unc);
    let a = share + rest;
    assert(share.is_prefix_of(a)) by {
        assert(a.subrange(0, share.len() as int) =~= share);
    }
    assert(a.skip(share.len() as int) =~= rest);
    let b = drive + rest;
    assert(drive.is_prefix_of(b)) by {
        assert(b.subrange(0, drive.len() as int) =~= drive);
    }
    assert(b.skip(drive.len() as int) =~= rest);
    if share.is_prefix_of(b) {
        assert(b.subrange(0, share.len() as int) =~= share);
        assert(rest.subrange(0, unc.len() as int) =~= unc) by {
            assert forall|i: int| 0 <= i < unc.len() implies rest[i] == unc[i] by {
                assert(b[drive.len() + i] == share[drive.len() + i]);
            }
        }
        assert(unc.is_prefix_of(rest));
    }
    if share.is_prefix_of(path) {
        assert(path.subrange(0, share.len() as int) =~= share);
        assert(path.subrange(0, drive.len() as int) =~= drive) by {
            assert forall|i: int| 0 <= i < drive.len() implies path[i] == drive[i] by {
                assert(path[i] == share[i]);
            }
        }
        assert(drive.is_prefix_of(path));
    }
}

/// A path is normalised from its deepest ancestor that the file system knows: the canonical form of that
/// one is taken, and the names below it are put behind it as they were. Where none is known the path
/// stays as it is.
pub proof fn law_deepest_known_ancestor_counts(
    path: Seq<char>,
    ancestors: Seq<Option<Seq<char>>>,
    names: Seq<Seq<char>>,
    windows: bool,
    from: int,
    i: int,
)
    requires
        0 <= from <= i,
        ancestors.len() <= names.len() + 1,
        forall|j: int| from <= j < i && j < ancestors.len() ==> #[trigger] ancestors[j] is None,
    ensures
        i < ancestors.len() ==> (ancestors[i] matches Some(canonical) ==> normal_form(path, ancestors, names, windows, from) == joined(
            if windows {
                verbatim_stripped(canonical)
            } else {
                canonical
            },
            names.take(i).reverse(),
            windows,
        )),
        i >= ancestors.len() ==> normal_form(path, ancestors, names, windows, from) == path,
    decreases ancestors.len() - from,
{
    if from < i && from < ancestors.len() {
        assert(ancestors[from] is None);
        law_deepest_known_ancestor_counts(path, ancestors, names, windows, from + 1, i);
    }
}

/// A name put below a base stands behind it and one separator of the system, which is not doubled.
pub proof fn law_names_are_joined_by_one_separator(base: Seq<char>, names: Seq<Seq<char>>, name: Seq<char>, windows: bool)
    ensures
        joined(base, Seq::empty(), windows) == base,
        ({
            let rest = joined(base, names, windows);
            let c = if windows { '\\' } else { '/' };
            joined(base, names.push(name), windows) == (if rest.len() > 0 && rest[rest.len() - 1] == c {
                rest + name
            } else {
                rest + seq![c] + name
            })
        }),
{
    assert(names.push(name).drop_last() =~= names);
    let rest = joined(base, names, windows);
    let c = separator(windows);
    assert(rest.push(c) + name =~= rest + seq![c] + name);
}

} // verus!
