//! File names of the cache: which of them name a package, which release such a
//! name stands for, and how the files that accompany a package are named.

use crate::package::{PackageFile, PackageFileView, PackageIdentity, PackageIdentityView};
use vstd::prelude::*;
use vstd::std_specs::iter::IteratorSpec;
use vstd::string::StringExecFns;

verus! {

/// The index of the last `c` in `text`.
pub open spec fn last_index(text: Seq<char>, c: char) -> Option<int>
    decreases text.len(),
{
    if text.len() == 0 {
        None
    } else if text.last() == c {
        Some(text.len() - 1)
    } else {
        last_index(text.drop_last(), c)
    }
}

/// `last_index` finds a `c` after which no other follows, and finds none only
/// where there is none.
pub proof fn lemma_last_index(text: Seq<char>, c: char)
    ensures
        match last_index(text, c) {
            Some(i) => 0 <= i < text.len() && text[i] == c && forall|j: int|
                i < j < text.len() ==> text[j] != c,
            None => !text.contains(c),
        },
    decreases text.len(),
{
    if text.len() > 0 && text.last() != c {
        let front = text.drop_last();
        lemma_last_index(front, c);
        match last_index(front, c) {
            Some(i) => {
                assert forall|j: int| i < j < text.len() implies text[j] != c by {
                    if j < front.len() {
                        assert(front[j] == text[j]);
                    }
                }
            },
            None => {
                assert forall|j: int| 0 <= j < text.len() implies text[j] != c by {
                    if j < front.len() {
                        assert(front[j] == text[j]);
                        assert(front.contains(text[j]));
                    }
                }
            },
        }
    }
}

/// A `c` after which no other follows is the one that `last_index` finds.
pub proof fn lemma_last_index_is(text: Seq<char>, c: char, i: int)
    requires
        0 <= i < text.len(),
        text[i] == c,
        forall|j: int| i < j < text.len() ==> text[j] != c,
    ensures
        last_index(text, c) == Some(i),
{
    lemma_last_index(text, c);
    if last_index(text, c) is None {
        assert(text.contains(text[i]));
    }
}

/// The last component of a path: what follows its last `/`, and all of a path
/// that has none.
pub open spec fn file_name_of(path: Seq<char>) -> Seq<char> {
    match last_index(path, '/') {
        Some(i) => path.skip(i + 1),
        None => path,
    }
}

/// The extension of a file name: what follows its last `.`, unless that is its
/// first character or the name is `..`.
pub open spec fn extension_of(file_name: Seq<char>) -> Option<Seq<char>> {
    if file_name == seq!['.', '.'] {
        None
    } else {
        match last_index(file_name, '.') {
            Some(i) => if i == 0 {
                None
            } else {
                Some(file_name.skip(i + 1))
            },
            None => None,
        }
    }
}

/// Whether `extension` is `cfs` or `sig`, in any mix of upper and lower case.
pub open spec fn is_sidecar_extension(extension: Seq<char>) -> bool {
    &&& extension.len() == 3
    &&& {
        ||| {
            &&& extension[0] == 'c' || extension[0] == 'C'
            &&& extension[1] == 'f' || extension[1] == 'F'
            &&& extension[2] == 's' || extension[2] == 'S'
        }
        ||| {
            &&& extension[0] == 's' || extension[0] == 'S'
            &&& extension[1] == 'i' || extension[1] == 'I'
            &&& extension[2] == 'g' || extension[2] == 'G'
        }
    }
}

/// Whether a file of this name accompanies a package: a detached signature or a
/// compressed file system index.
pub open spec fn is_sidecar_name(file_name: Seq<char>) -> bool {
    match extension_of(file_name) {
        Some(extension) => is_sidecar_extension(extension),
        None => false,
    }
}

/// The release that a file name stands for.
///
/// A package is named `<name>-<first>-<second>-<suffix>`: the last three hyphens
/// of the file name part it, the version is `<first>-<second>`, and the name may
/// hold hyphens of its own but no line feed.
pub open spec fn identity_of(file_name: Seq<char>) -> Option<PackageIdentityView> {
    match last_index(file_name, '-') {
        Some(third) => match last_index(file_name.take(third), '-') {
            Some(second) => match last_index(file_name.take(second), '-') {
                Some(first) => if file_name.take(first).contains('\n') {
                    None
                } else {
                    Some(
                        PackageIdentityView {
                            name: file_name.take(first),
                            version: file_name.subrange(first + 1, third),
                        },
                    )
                },
                None => None,
            },
            None => None,
        },
        None => None,
    }
}

/// The package file that lies at `path`, if the path names one: its last
/// component is no sidecar and stands for a release.
pub open spec fn package_file_of(path: Seq<char>) -> Option<PackageFileView> {
    let file_name = file_name_of(path);
    if is_sidecar_name(file_name) {
        None
    } else {
        match identity_of(file_name) {
            Some(identity) => Some(PackageFileView { identity, path }),
            None => None,
        }
    }
}

fn chars_of(text: &str) -> (chars: Vec<char>)
    ensures
        chars@ == text@,
{
    let mut chars: Vec<char> = Vec::new();
    let mut rest = text.chars();
    loop
        invariant
            rest.obeys_prophetic_iter_laws(),
            rest.decrease() is Some,
            chars@ + rest.remaining() == text@,
        decreases rest.decrease()->0,
    {
        let ghost before = rest.remaining();
        let ghost collected = chars@;
        match rest.next() {
            Some(c) => {
                chars.push(c);
                proof {
                    assert(before =~= seq![c] + before.drop_first());
                    assert(chars@ + rest.remaining() =~= collected + before);
                }
            },
            None => {
                proof {
                    assert(chars@ =~= chars@ + rest.remaining());
                }
                return chars;
            },
        }
    }
}

fn last_position(chars: &Vec<char>, end: usize, c: char) -> (found: Option<usize>)
    requires
        end <= chars.len(),
    ensures
        match found {
            Some(i) => last_index(chars@.take(end as int), c) == Some(i as int) && i < end,
            None => last_index(chars@.take(end as int), c) is None,
        },
{
    let ghost text = chars@.take(end as int);
    let mut i = end;
    while i > 0
        invariant
            i <= end <= chars.len(),
            text == chars@.take(end as int),
            forall|j: int| i <= j < end ==> text[j] != c,
        decreases i,
    {
        i = i - 1;
        if chars[i] == c {
            proof {
                lemma_last_index_is(text, c, i as int);
            }
            return Some(i);
        }
    }
    proof {
        lemma_last_index(text, c);
    }
    None
}

/// Gives the last component of `path`.
pub fn file_name(path: &str) -> (name: String)
    ensures
        name@ == file_name_of(path@),
{
    let chars = chars_of(path);
    proof {
        assert(chars@.take(chars.len() as int) =~= path@);
    }
    match last_position(&chars, chars.len(), '/') {
        Some(i) => {
            let name = String::from_str(path.substring_char(i + 1, chars.len()));
            proof {
                assert(name@ =~= path@.skip(i + 1));
            }
            name
        },
        None => String::from_str(path),
    }
}

/// Tells whether a file of this name is a sidecar of a package, by its
/// extension `cfs` or `sig` in any case.
pub fn has_sidecar_extension(file_name: &str) -> (sidecar: bool)
    ensures
        sidecar == is_sidecar_name(file_name@),
{
    let chars = chars_of(file_name);
    let len = chars.len();
    proof {
        assert(chars@.take(len as int) =~= file_name@);
    }
    match last_position(&chars, len, '.') {
        Some(i) => {
            if i == 0 || len - i != 4 {
                false
            } else {
                let a = chars[i + 1];
                let b = chars[i + 2];
                let c = chars[i + 3];
                proof {
                    let extension = file_name@.skip(i + 1);
                    assert(extension.len() == 3);
                    assert(extension[0] == a && extension[1] == b && extension[2] == c);
                }
                ((a == 'c' || a == 'C') && (b == 'f' || b == 'F') && (c == 's' || c == 'S')) || ((a
                    == 's' || a == 'S') && (b == 'i' || b == 'I') && (c == 'g' || c == 'G'))
            }
        },
        None => false,
    }
}

/// Reads the release out of a file name, where the name follows the convention
/// `<name>-<first>-<second>-<suffix>`.
pub fn parse_file_name(file_name: &str) -> (parsed: Option<PackageIdentity>)
    ensures
        parsed.deep_view() == identity_of(file_name@),
{
    let chars = chars_of(file_name);
    proof {
        assert(chars@.take(chars.len() as int) =~= file_name@);
    }
    let third = match last_position(&chars, chars.len(), '-') {
        Some(i) => i,
        None => {
            return None;
        },
    };
    let second = match last_position(&chars, third, '-') {
        Some(i) => i,
        None => {
            return None;
        },
    };
    proof {
        assert(chars@.take(third as int).take(second as int) =~= chars@.take(second as int));
    }
    let first = match last_position(&chars, second, '-') {
        Some(i) => i,
        None => {
            return None;
        },
    };
    proof {
        assert(chars@.take(second as int).take(first as int) =~= chars@.take(first as int));
        lemma_last_index(file_name@.take(first as int), '\n');
    }
    if last_position(&chars, first, '\n').is_some() {
        return None;
    }
    let name = String::from_str(file_name.substring_char(0, first));
    let version = String::from_str(file_name.substring_char(first + 1, third));
    Some(PackageIdentity { name, version })
}

/// Reads the package file that lies at `path`: `None` for a sidecar and for a
/// file whose name does not follow the convention.
pub fn parse_package_file(path: &str) -> (parsed: Option<PackageFile>)
    ensures
        parsed.deep_view() == package_file_of(path@),
        is_sidecar_name(file_name_of(path@)) ==> parsed is None,
{
    let name = file_name(path);
    if has_sidecar_extension(name.as_str()) {
        return None;
    }
    match parse_file_name(name.as_str()) {
        Some(identity) => Some(PackageFile { identity, path: String::from_str(path) }),
        None => None,
    }
}

/// What is left of `path` behind `root`, where the path begins with the root.
pub open spec fn relative_to(path: Seq<char>, root: Seq<char>) -> Option<Seq<char>> {
    if root.is_prefix_of(path) {
        Some(path.skip(root.len() as int))
    } else {
        None
    }
}

/// Gives `path` as it reads from `root`: what follows the root, and `None` for
/// a path that does not begin with it.
pub fn relative_path(path: &str, root: &str) -> (relative: Option<String>)
    ensures
        relative.deep_view() == relative_to(path@, root@),
{
    let whole = chars_of(path);
    let prefix = chars_of(root);
    if prefix.len() > whole.len() {
        return None;
    }
    let mut i: usize = 0;
    while i < prefix.len()
        invariant
            i <= prefix.len() <= whole.len(),
            whole@ == path@,
            prefix@ == root@,
            forall|k: int| 0 <= k < i ==> whole@[k] == prefix@[k],
        decreases prefix.len() - i,
    {
        if whole[i] != prefix[i] {
            proof {
                assert(path@.subrange(0, root@.len() as int)[i as int] != root@[i as int]);
            }
            return None;
        }
        i = i + 1;
    }
    proof {
        assert(root@ =~= path@.subrange(0, root@.len() as int));
    }
    let relative = String::from_str(path.substring_char(prefix.len(), whole.len()));
    proof {
        assert(relative@ =~= path@.skip(root@.len() as int));
    }
    Some(relative)
}

/// The name of the detached signature of the package file `file_name`.
pub open spec fn signature_name(file_name: Seq<char>) -> Seq<char> {
    file_name + seq!['.', 's', 'i', 'g']
}

/// The name of the compressed file system index of the package file `file_name`.
pub open spec fn cfs_name(file_name: Seq<char>) -> Seq<char> {
    seq!['.'] + file_name + seq!['.', 'c', 'f', 's']
}

/// The name of the compressed file system index of the signature of the package
/// file `file_name`.
pub open spec fn signature_cfs_name(file_name: Seq<char>) -> Seq<char> {
    seq!['.'] + file_name + seq!['.', 's', 'i', 'g', '.', 'c', 'f', 's']
}

/// The names of the files that accompany one package file, in its directory.
#[derive(Debug, PartialEq, Eq)]
pub struct SidecarNames {
    pub signature: String,
    pub cfs: String,
    pub signature_cfs: String,
}

/// Names the three sidecars that go when the package file `file_name` goes.
pub fn sidecar_names(file_name: &str) -> (names: SidecarNames)
    ensures
        names.signature@ == signature_name(file_name@),
        names.cfs@ == cfs_name(file_name@),
        names.signature_cfs@ == signature_cfs_name(file_name@),
{
    proof {
        reveal_strlit(".");
        reveal_strlit(".sig");
        reveal_strlit(".cfs");
        reveal_strlit(".sig.cfs");
    }
    let mut signature = String::from_str(file_name);
    signature.append(".sig");
    let mut cfs = String::from_str(".");
    cfs.append(file_name);
    cfs.append(".cfs");
    let mut signature_cfs = String::from_str(".");
    signature_cfs.append(file_name);
    signature_cfs.append(".sig.cfs");
    proof {
        assert(signature@ =~= signature_name(file_name@));
        assert(cfs@ =~= cfs_name(file_name@));
        assert(signature_cfs@ =~= signature_cfs_name(file_name@));
    }
    SidecarNames { signature, cfs, signature_cfs }
}

/// The sidecars of a file are recognised as sidecars, so none of them is ever
/// taken for a package.
pub proof fn lemma_sidecars_are_recognised(file_name: Seq<char>)
    requires
        file_name.len() > 0,
    ensures
        is_sidecar_name(signature_name(file_name)),
        is_sidecar_name(cfs_name(file_name)),
        is_sidecar_name(signature_cfs_name(file_name)),
{
    let n = file_name.len() as int;
    let signature = signature_name(file_name);
    lemma_last_index_is(signature, '.', n);
    assert(signature.skip(n + 1) =~= seq!['s', 'i', 'g']);
    let cfs = cfs_name(file_name);
    lemma_last_index_is(cfs, '.', n + 1);
    assert(cfs.skip(n + 2) =~= seq!['c', 'f', 's']);
    let signature_cfs = signature_cfs_name(file_name);
    lemma_last_index_is(signature_cfs, '.', n + 5);
    assert(signature_cfs.skip(n + 6) =~= seq!['c', 'f', 's']);
}

/// A path whose last component is a sidecar names no package file.
pub proof fn lemma_sidecar_is_no_package(path: Seq<char>)
    requires
        is_sidecar_name(file_name_of(path)),
    ensures
        package_file_of(path) is None,
{
}

/// The file name that the convention makes of a package name, the two parts of a
/// version and a suffix.
pub open spec fn convention_name(
    name: Seq<char>,
    first: Seq<char>,
    second: Seq<char>,
    suffix: Seq<char>,
) -> Seq<char> {
    name + seq!['-'] + first + seq!['-'] + second + seq!['-'] + suffix
}

/// Whether the four texts can be the parts of a file name under the convention:
/// no line feed in the name, no hyphen in the other three.
pub open spec fn are_convention_parts(
    name: Seq<char>,
    first: Seq<char>,
    second: Seq<char>,
    suffix: Seq<char>,
) -> bool {
    &&& !name.contains('\n')
    &&& !first.contains('-')
    &&& !second.contains('-')
    &&& !suffix.contains('-')
}

/// A file name built under the convention is read back as the name and the
/// version it was built from, however many hyphens the name holds.
pub proof fn lemma_parse_recovers_parts(
    name: Seq<char>,
    first: Seq<char>,
    second: Seq<char>,
    suffix: Seq<char>,
)
    requires
        are_convention_parts(name, first, second, suffix),
    ensures
        identity_of(convention_name(name, first, second, suffix)) == Some(
            PackageIdentityView { name, version: first + seq!['-'] + second },
        ),
{
    let file_name = convention_name(name, first, second, suffix);
    let h1 = name.len() as int;
    let h2 = h1 + 1 + first.len();
    let h3 = h2 + 1 + second.len();
    assert forall|j: int| h3 < j < file_name.len() implies file_name[j] != '-' by {
        assert(file_name[j] == suffix[j - h3 - 1]);
        assert(suffix.contains(suffix[j - h3 - 1]));
    }
    lemma_last_index_is(file_name, '-', h3);
    let upto3 = file_name.take(h3);
    assert forall|j: int| h2 < j < upto3.len() implies upto3[j] != '-' by {
        assert(upto3[j] == second[j - h2 - 1]);
        assert(second.contains(second[j - h2 - 1]));
    }
    lemma_last_index_is(upto3, '-', h2);
    let upto2 = upto3.take(h2);
    assert forall|j: int| h1 < j < upto2.len() implies upto2[j] != '-' by {
        assert(upto2[j] == first[j - h1 - 1]);
        assert(first.contains(first[j - h1 - 1]));
    }
    lemma_last_index_is(upto2, '-', h1);
    assert(upto2 =~= file_name.take(h2));
    assert(file_name.take(h1) =~= name);
    assert(file_name.subrange(h1 + 1, h3) =~= first + seq!['-'] + second);
}

/// A file name is read as a release exactly where it is built under the
/// convention, and then from the parts that were read.
pub proof fn lemma_parse_follows_convention(file_name: Seq<char>)
    ensures
        match identity_of(file_name) {
            Some(identity) => exists|first: Seq<char>, second: Seq<char>, suffix: Seq<char>|
                {
                    &&& are_convention_parts(identity.name, first, second, suffix)
                    &&& file_name == #[trigger] convention_name(
                        identity.name,
                        first,
                        second,
                        suffix,
                    )
                    &&& identity.version == first + seq!['-'] + second
                },
            None => forall|
                name: Seq<char>,
                first: Seq<char>,
                second: Seq<char>,
                suffix: Seq<char>,
            |
                are_convention_parts(name, first, second, suffix) ==> file_name
                    != #[trigger] convention_name(name, first, second, suffix),
        },
{
    match identity_of(file_name) {
        Some(identity) => {
            let h3 = last_index(file_name, '-')->0;
            let upto3 = file_name.take(h3);
            let h2 = last_index(upto3, '-')->0;
            let upto2 = file_name.take(h2);
            let h1 = last_index(upto2, '-')->0;
            lemma_last_index(file_name, '-');
            lemma_last_index(upto3, '-');
            lemma_last_index(upto2, '-');
            let first = file_name.subrange(h1 + 1, h2);
            let second = file_name.subrange(h2 + 1, h3);
            let suffix = file_name.skip(h3 + 1);
            assert(!first.contains('-')) by {
                if first.contains('-') {
                    let j = first.index_of('-');
                    assert(upto2[h1 + 1 + j] == '-');
                }
            }
            assert(!second.contains('-')) by {
                if second.contains('-') {
                    let j = second.index_of('-');
                    assert(upto3[h2 + 1 + j] == '-');
                }
            }
            assert(!suffix.contains('-')) by {
                if suffix.contains('-') {
                    let j = suffix.index_of('-');
                    assert(file_name[h3 + 1 + j] == '-');
                }
            }
            assert(file_name =~= convention_name(identity.name, first, second, suffix));
            assert(identity.version =~= first + seq!['-'] + second);
        },
        None => {
            assert forall|
                name: Seq<char>,
                first: Seq<char>,
                second: Seq<char>,
                suffix: Seq<char>,
            | are_convention_parts(name, first, second, suffix) implies file_name
                != #[trigger] convention_name(name, first, second, suffix) by {
                lemma_parse_recovers_parts(name, first, second, suffix);
            }
        },
    }
}

} // verus!
