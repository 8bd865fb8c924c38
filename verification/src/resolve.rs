use vstd::prelude::*;
use vstd::string::StrSliceExecFns;

verus! {

/// The five well-known registry roots a path may start with.
#[derive(Clone, Copy, Debug, PartialEq, Eq, Structural)]
pub enum RootKey {
    LocalMachine,
    Users,
    CurrentUser,
    ClassesRoot,
    CurrentConfig,
}

/// Why a path was rejected before any key was opened.
#[derive(Clone, Copy, Debug, PartialEq, Eq, Structural)]
pub enum ResolveError {
    /// The first path segment is not one of the five root names.
    InvalidRoot,
    /// A root name was given with nothing after it.
    EmptyBranchPath,
}

/// The textual name of a root, as it must appear in a path.
pub open spec fn root_name_seq(rk: RootKey) -> Seq<char> {
    match rk {
        RootKey::LocalMachine => "HKEY_LOCAL_MACHINE"@,
        RootKey::Users => "HKEY_USERS"@,
        RootKey::CurrentUser => "HKEY_CURRENT_USER"@,
        RootKey::ClassesRoot => "HKEY_CLASSES_ROOT"@,
        RootKey::CurrentConfig => "HKEY_CURRENT_CONFIG"@,
    }
}

/// Index of the first backslash in `s`, or `s.len()` when there is none.
pub open spec fn first_sep(s: Seq<char>) -> int
    decreases s,
{
    if s.len() == 0 {
        0
    } else if s[0] == '\\' {
        0
    } else {
        1 + first_sep(s.drop_first())
    }
}

/// The first backslash-separated segment of `s`.
pub open spec fn first_segment(s: Seq<char>) -> Seq<char> {
    s.subrange(0, first_sep(s))
}

/// Everything after the first backslash of `s`, empty when there is none.
pub open spec fn sub_path(s: Seq<char>) -> Seq<char> {
    if first_sep(s) < s.len() {
        s.subrange(first_sep(s) + 1, s.len() as int)
    } else {
        Seq::empty()
    }
}

/// The root a segment names, matched case-sensitively and exactly.
pub open spec fn spec_root_of(name: Seq<char>) -> Option<RootKey> {
    if name == root_name_seq(RootKey::LocalMachine) {
        Some(RootKey::LocalMachine)
    } else if name == root_name_seq(RootKey::Users) {
        Some(RootKey::Users)
    } else if name == root_name_seq(RootKey::CurrentUser) {
        Some(RootKey::CurrentUser)
    } else if name == root_name_seq(RootKey::ClassesRoot) {
        Some(RootKey::ClassesRoot)
    } else if name == root_name_seq(RootKey::CurrentConfig) {
        Some(RootKey::CurrentConfig)
    } else {
        None
    }
}

/// How a path string parses: an unrecognized first segment is rejected as
/// `InvalidRoot`; a recognized root with an empty remainder is rejected as
/// `EmptyBranchPath`; otherwise the root and the remainder are returned.
pub open spec fn spec_resolve(s: Seq<char>) -> Result<(RootKey, Seq<char>), ResolveError> {
    match spec_root_of(first_segment(s)) {
        None => Err(ResolveError::InvalidRoot),
        Some(rk) => if sub_path(s).len() == 0 {
            Err(ResolveError::EmptyBranchPath)
        } else {
            Ok((rk, sub_path(s)))
        },
    }
}

/// An index with no backslash before it that is the length or lands on a
/// backslash is exactly `first_sep`.
pub proof fn lemma_first_sep_is(s: Seq<char>, i: int)
    requires
        0 <= i <= s.len(),
        forall|j: int| 0 <= j < i ==> s[j] != '\\',
        i < s.len() ==> s[i] == '\\',
    ensures
        first_sep(s) == i,
    decreases s,
{
    if i == 0 {
        if s.len() > 0 {
            assert(s[0] == '\\');
        }
    } else {
        assert(s[0] != '\\');
        assert forall|j: int| 0 <= j < i - 1 implies s.drop_first()[j] != '\\' by {
            assert(s.drop_first()[j] == s[j + 1]);
        }
        if i - 1 < s.drop_first().len() {
            assert(s.drop_first()[i - 1] == s[i]);
        }
        lemma_first_sep_is(s.drop_first(), i - 1);
    }
}

/// No root name contains a backslash, so the first backslash of a well-formed
/// path comes right after the root name.
proof fn lemma_root_names_plain(rk: RootKey)
    ensures
        forall|j: int|
            0 <= j < root_name_seq(rk).len() ==> #[trigger] root_name_seq(rk)[j] != '\\',
        root_name_seq(rk).len() > 0,
{
    reveal_strlit("HKEY_LOCAL_MACHINE");
    reveal_strlit("HKEY_USERS");
    reveal_strlit("HKEY_CURRENT_USER");
    reveal_strlit("HKEY_CLASSES_ROOT");
    reveal_strlit("HKEY_CURRENT_CONFIG");
}

/// The five root names are pairwise distinct, so a segment names at most one
/// root: `spec_root_of` maps each root name to exactly its root.
pub proof fn lemma_root_of_names(rk: RootKey)
    ensures
        spec_root_of(root_name_seq(rk)) == Some(rk),
{
    reveal_strlit("HKEY_LOCAL_MACHINE");
    reveal_strlit("HKEY_USERS");
    reveal_strlit("HKEY_CURRENT_USER");
    reveal_strlit("HKEY_CLASSES_ROOT");
    reveal_strlit("HKEY_CURRENT_CONFIG");
    assert(root_name_seq(RootKey::CurrentUser) != root_name_seq(RootKey::ClassesRoot)) by {
        assert(root_name_seq(RootKey::CurrentUser)[6] == 'U');
        assert(root_name_seq(RootKey::ClassesRoot)[6] == 'L');
    }
    assert(root_name_seq(RootKey::LocalMachine).len() == 18);
    assert(root_name_seq(RootKey::Users).len() == 10);
    assert(root_name_seq(RootKey::CurrentUser).len() == 17);
    assert(root_name_seq(RootKey::ClassesRoot).len() == 17);
    assert(root_name_seq(RootKey::CurrentConfig).len() == 19);
}

/// For every valid root name and every non-empty sub-path, the path made of
/// the root name, a backslash and the sub-path parses to that root and that
/// sub-path, independent of whether the sub-path can later be opened.
pub proof fn lemma_valid_root_parses(rk: RootKey, sub: Seq<char>)
    requires
        sub.len() > 0,
    ensures
        spec_resolve(root_name_seq(rk) + seq!['\\'] + sub) == Ok::<
            (RootKey, Seq<char>),
            ResolveError,
        >((rk, sub)),
{
    let name = root_name_seq(rk);
    let s = name + seq!['\\'] + sub;
    lemma_root_names_plain(rk);
    assert forall|j: int| 0 <= j < name.len() implies s[j] != '\\' by {
        assert(s[j] == name[j]);
    }
    assert(s[name.len() as int] == '\\');
    lemma_first_sep_is(s, name.len() as int);
    assert(first_segment(s) =~= name);
    lemma_root_of_names(rk);
    assert(sub_path(s) =~= sub);
}

/// A path whose first segment is none of the five root names — in particular
/// one with no backslash at all that is not itself a root name — fails with
/// `InvalidRoot`, whatever follows.
pub proof fn lemma_unrecognized_root_rejected(s: Seq<char>)
    requires
        forall|rk: RootKey| first_segment(s) != root_name_seq(rk),
    ensures
        spec_resolve(s) == Err::<(RootKey, Seq<char>), ResolveError>(ResolveError::InvalidRoot),
{
    assert(first_segment(s) != root_name_seq(RootKey::LocalMachine));
    assert(first_segment(s) != root_name_seq(RootKey::Users));
    assert(first_segment(s) != root_name_seq(RootKey::CurrentUser));
    assert(first_segment(s) != root_name_seq(RootKey::ClassesRoot));
    assert(first_segment(s) != root_name_seq(RootKey::CurrentConfig));
}

/// A root name alone, with no sub-path after it, fails with
/// `EmptyBranchPath`; so does a root name followed by a bare backslash.
pub proof fn lemma_root_alone_rejected(rk: RootKey)
    ensures
        spec_resolve(root_name_seq(rk)) == Err::<(RootKey, Seq<char>), ResolveError>(
            ResolveError::EmptyBranchPath,
        ),
        spec_resolve(root_name_seq(rk) + seq!['\\']) == Err::<(RootKey, Seq<char>), ResolveError>(
            ResolveError::EmptyBranchPath,
        ),
{
    let name = root_name_seq(rk);
    lemma_root_names_plain(rk);
    lemma_first_sep_is(name, name.len() as int);
    assert(first_segment(name) =~= name);
    lemma_root_of_names(rk);

    let s = name + seq!['\\'];
    assert forall|j: int| 0 <= j < name.len() implies s[j] != '\\' by {
        assert(s[j] == name[j]);
    }
    assert(s[name.len() as int] == '\\');
    lemma_first_sep_is(s, name.len() as int);
    assert(first_segment(s) =~= name);
    assert(sub_path(s).len() == 0);
}

fn str_eq(a: &str, b: &str) -> (r: bool)
    ensures
        r == (a@ == b@),
{
    let sa: String = a.to_owned();
    let sb: String = b.to_owned();
    sa == sb
}

/// Parse a registry path: match its first backslash-separated segment
/// case-sensitively against the five root names and split off the remainder.
/// Rejects an unrecognized or missing root segment as `InvalidRoot` and a
/// recognized root with an empty remainder as `EmptyBranchPath`. Opening the
/// sub-path under the root is the caller's affair; this function never
/// touches the registry.
pub fn resolve(path: &str) -> (r: Result<(RootKey, String), ResolveError>)
    ensures
        match r {
            Ok(p) => spec_resolve(path@) == Ok::<(RootKey, Seq<char>), ResolveError>((p.0, p.1@)),
            Err(e) => spec_resolve(path@) == Err::<(RootKey, Seq<char>), ResolveError>(e),
        },
{
    let n = path.unicode_len();
    let mut cut: usize = 0;
    while cut < n && path.get_char(cut) != '\\'
        invariant
            n == path@.len(),
            0 <= cut <= n,
            forall|j: int| 0 <= j < cut ==> path@[j] != '\\',
        decreases n - cut,
    {
        cut = cut + 1;
    }
    proof {
        lemma_first_sep_is(path@, cut as int);
    }

    let seg = path.substring_char(0, cut);
    let root = if str_eq(seg, "HKEY_LOCAL_MACHINE") {
        Some(RootKey::LocalMachine)
    } else if str_eq(seg, "HKEY_USERS") {
        Some(RootKey::Users)
    } else if str_eq(seg, "HKEY_CURRENT_USER") {
        Some(RootKey::CurrentUser)
    } else if str_eq(seg, "HKEY_CLASSES_ROOT") {
        Some(RootKey::ClassesRoot)
    } else if str_eq(seg, "HKEY_CURRENT_CONFIG") {
        Some(RootKey::CurrentConfig)
    } else {
        None
    };

    match root {
        None => Err(ResolveError::InvalidRoot),
        Some(rk) => {
            if cut == n {
                Err(ResolveError::EmptyBranchPath)
            } else {
                let rest = path.substring_char(cut + 1, n);
                if rest.unicode_len() == 0 {
                    Err(ResolveError::EmptyBranchPath)
                } else {
                    Ok((rk, rest.to_owned()))
                }
            }
        },
    }
}

} // verus!
