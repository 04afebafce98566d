//! Names of files: of the snapshot, and of the report on it.
use vstd::prelude::*;
use vstd::string::*;
use crate::text::{each_pattern_that_is_met_goes, occurs, remove_all, stands_at, without};

verus! {

/// A path without what follows its last component: each `/` at its end goes, and each `.` behind
/// a `/` there.
pub open spec fn trimmed(path: Seq<char>) -> Seq<char>
    decreases path.len(),
{
    let n = path.len();
    if n >= 1 && path[n - 1] == '/' {
        trimmed(path.drop_last())
    } else if n >= 2 && path[n - 1] == '.' && path[n - 2] == '/' {
        trimmed(path.drop_last())
    } else {
        path
    }
}

/// What stands behind the last `/` of a text; all of it, if there is none.
pub open spec fn behind_last_slash(text: Seq<char>) -> Seq<char>
    decreases text.len(),
{
    if text.len() == 0 || text.last() == '/' {
        Seq::empty()
    } else {
        behind_last_slash(text.drop_last()).push(text.last())
    }
}

/// The last component of a path in which `/` alone parts the components: there is none if nothing
/// or `.` is left of the path, or if it ends in `..`.
pub open spec fn slash_component(path: Seq<char>) -> Option<Seq<char>> {
    let piece = behind_last_slash(trimmed(path));
    if piece.len() == 0 || piece == "."@ || piece == ".."@ {
        None
    } else {
        Some(piece)
    }
}

/// A text begins with two `/`.
pub open spec fn begins_with_two_slashes(text: Seq<char>) -> bool {
    text.len() >= 2 && text[0] == '/' && text[1] == '/'
}

/// A text that begins with two `/` goes on beyond what Windows may take for a server and its share,
/// or for a device: behind its third character there is a `/`, then something else, then a `/`.
pub open spec fn goes_beyond_a_share(text: Seq<char>) -> bool {
    exists|i: int, j: int, k: int|
        3 <= i < j < k < text.len() && #[trigger] text[i] == '/' && #[trigger] text[j] != '/'
            && #[trigger] text[k] == '/'
}

/// A path that every system takes apart alike, at `/`: it holds no `\\`; if it begins with two
/// `/`, it goes on beyond a share; and it is more than a single component with a `:` in it.
pub open spec fn is_slash_path(path: Seq<char>) -> bool {
    &&& !path.contains('\\')
    &&& begins_with_two_slashes(path) ==> goes_beyond_a_share(trimmed(path))
    &&& trimmed(path).contains('/') || !trimmed(path).contains(':')
}

/// What is promised of the last component of a path: it is that of a path that every system takes
/// apart alike, and of any path it is a piece.
pub open spec fn is_last_component(path: Seq<char>, name: Option<Seq<char>>) -> bool {
    &&& is_slash_path(path) ==> name == slash_component(path)
    &&& name matches Some(piece) ==> occurs(piece, path)
}

/// `std::path::Path::file_name` of the standard library: the last component of a path, if there
/// is one, as text. A `/` or `/.` at the end is passed over, and what ends in `..`, or is no more
/// than `.`, has no last component. The separators are the system's, so of paths that systems
/// take apart differently nothing is claimed but that a last component is a piece of the path.
#[verifier::external_body]
fn last_component(path: &str) -> (r: Option<String>)
    ensures
        is_last_component(
            path@,
            (match r {
                Some(name) => Some(name@),
                None => None,
            }),
        ),
{
    std::path::Path::new(path).file_name().map(|name| name.to_string_lossy().to_string())
}

/// The name that a report gives its snapshot: the last component of the path, or nothing.
pub open spec fn is_file_name(path: Seq<char>, name: Seq<char>) -> bool {
    is_last_component(path, Some(name)) || (name.len() == 0 && is_last_component(path, None))
}

/// The name of a file, given the last component of its path: empty if there is none.
pub fn name_or_empty(component: Option<String>) -> (r: String)
    ensures
        match component {
            Some(name) => r@ == name@,
            None => r@ == Seq::<char>::empty(),
        },
{
    match component {
        Some(name) => name,
        None => String::new(),
    }
}

/// The name of the file at `path`.
pub fn file_name(path: &str) -> (r: String)
    ensures
        is_file_name(path@, r@),
{
    name_or_empty(last_component(path))
}

/// A text that names something in a directory: it is not empty, neither `.` nor `..`, and holds no
/// `/`.
pub open spec fn is_entry_name(name: Seq<char>) -> bool {
    &&& name.len() > 0
    &&& name != "."@
    &&& name != ".."@
    &&& !name.contains('/')
}

/// What stands behind the last `/` of a text that ends in a text without `/`.
proof fn lemma_behind_last_slash(dir: Seq<char>, name: Seq<char>)
    requires
        !name.contains('/'),
    ensures
        behind_last_slash(dir.push('/') + name) == name,
        behind_last_slash(name) == name,
    decreases name.len(),
{
    let path = dir.push('/') + name;
    if name.len() == 0 {
        assert(path =~= dir.push('/'));
        assert(behind_last_slash(name) =~= name);
        assert(behind_last_slash(path) =~= name);
    } else {
        let shorter = name.drop_last();
        assert(name.contains(name.last()));
        assert forall|i: int| 0 <= i < shorter.len() implies shorter[i] != '/' by {
            assert(name.contains(name[i]));
        }
        assert(path.drop_last() =~= dir.push('/') + shorter);
        assert(path.last() == name.last());
        lemma_behind_last_slash(dir, shorter);
        assert(shorter.push(name.last()) =~= name);
    }
}

/// A path that ends in an entry's name is trimmed already.
proof fn lemma_entry_is_trimmed(front: Seq<char>, name: Seq<char>)
    requires
        is_entry_name(name),
        front.len() > 0 ==> front.last() == '/',
    ensures
        trimmed(front + name) == front + name,
{
    let path = front + name;
    let n = path.len();
    assert(name.contains(name.last()));
    assert(path[n - 1] == name.last());
    if n >= 2 && path[n - 1] == '.' && path[n - 2] == '/' {
        if name.len() == 1 {
            reveal_strlit(".");
            assert(name =~= "."@);
        } else {
            assert(path[n - 2] == name[name.len() - 2]);
            assert(name.contains(name[name.len() - 2]));
        }
    }
}

/// The file at `dir/name` is called `name`, whatever the directory, where `/` alone parts the two.
pub proof fn file_in_a_directory_has_its_own_name(
    dir: Seq<char>,
    name: Seq<char>,
    shown: Seq<char>,
)
    requires
        is_entry_name(name),
        !dir.contains('\\'),
        !name.contains('\\'),
        begins_with_two_slashes(dir.push('/') + name) ==> goes_beyond_a_share(
            dir.push('/') + name,
        ),
        is_file_name(dir.push('/') + name, shown),
    ensures
        shown == name,
{
    let path = dir.push('/') + name;
    lemma_entry_is_trimmed(dir.push('/'), name);
    lemma_behind_last_slash(dir, name);
    assert(path[dir.len() as int] == '/');
    assert(path.contains('/'));
    assert(!path.contains('\\')) by {
        assert forall|i: int| 0 <= i < path.len() implies path[i] != '\\' by {
            if i < dir.len() {
                assert(dir.contains(dir[i]));
            } else if i > dir.len() {
                assert(name.contains(name[i - dir.len() - 1]));
            }
        }
    }
}

/// A file that is given by its name alone is called by that name.
pub proof fn file_without_a_directory_has_its_own_name(name: Seq<char>, shown: Seq<char>)
    requires
        is_entry_name(name),
        !name.contains('\\'),
        !name.contains(':'),
        is_file_name(name, shown),
    ensures
        shown == name,
{
    assert(Seq::<char>::empty() + name =~= name);
    lemma_entry_is_trimmed(Seq::empty(), name);
    lemma_behind_last_slash(Seq::empty(), name);
    assert(name.contains(name[0]));
}

/// A `/` or `/.` at the end of a path does not change its last component.
pub proof fn trailing_slash_and_dot_do_not_count(path: Seq<char>)
    ensures
        slash_component(path.push('/')) == slash_component(path),
        slash_component(path.push('/').push('.')) == slash_component(path),
{
    assert(path.push('/').drop_last() =~= path);
    assert(path.push('/').push('.').drop_last() =~= path.push('/'));
}

/// What is trimmed off a path stands at its end and is made of `/` and `.`.
proof fn lemma_trimmed_off(path: Seq<char>)
    ensures
        trimmed(path).is_prefix_of(path),
        forall|i: int|
            trimmed(path).len() <= i < path.len() ==> #[trigger] path[i] == '/' || path[i] == '.',
    decreases path.len(),
{
    if trimmed(path) != path {
        lemma_trimmed_off(path.drop_last());
        assert forall|i: int| trimmed(path).len() <= i < path.len() implies #[trigger] path[i]
            == '/' || path[i] == '.' by {
            if i < path.len() - 1 {
                assert(path.drop_last()[i] == path[i]);
            }
        }
    }
}

/// A path of which `.` alone is left has no name.
pub proof fn current_directory_has_no_name(path: Seq<char>, shown: Seq<char>)
    requires
        trimmed(path) == "."@,
        is_file_name(path, shown),
    ensures
        shown.len() == 0,
{
    reveal_strlit(".");
    lemma_trimmed_off(path);
    assert(path[0] == "."@[0]);
    assert forall|i: int| 0 <= i < path.len() implies path[i] != '\\' by {}
    lemma_behind_last_slash(Seq::empty(), "."@);
}

/// A path that ends in `..` has no last component.
pub proof fn parent_directory_has_no_name(dir: Seq<char>)
    ensures
        slash_component(dir.push('/') + ".."@) is None,
        slash_component(".."@) is None,
{
    reveal_strlit("..");
    let dots = ".."@;
    let path = dir.push('/') + dots;
    let n = path.len();
    assert(path[n - 2] == '.' && path[n - 1] == '.');
    assert(!dots.contains('/'));
    lemma_behind_last_slash(dir, dots);
}

/// The path of the report on the snapshot at a path.
pub open spec fn report_path(path: Seq<char>) -> Seq<char> {
    without(path, ".heapsnapshot"@) + "-analysis.md"@
}

/// The path of the report on the snapshot at `file_path`.
pub fn output_path(file_path: &str) -> (r: String)
    ensures
        r@ == report_path(file_path@),
{
    let mut out = remove_all(file_path, ".heapsnapshot");
    out.append("-analysis.md");
    out
}

/// A text in which the pattern does not occur is left as it is.
proof fn lemma_without_absent(text: Seq<char>, pat: Seq<char>)
    requires
        !occurs(pat, text),
    ensures
        without(text, pat) == text,
    decreases text.len(),
{
    if text.len() > 0 && pat.len() > 0 {
        assert(!stands_at(pat, text, 0));
        let rest = text.skip(1);
        assert forall|at: int| !stands_at(pat, rest, at) by {
            if stands_at(pat, rest, at) {
                assert(text.subrange(at + 1, at + 1 + pat.len()) =~= rest.subrange(
                    at,
                    at + pat.len(),
                ));
                assert(stands_at(pat, text, at + 1));
            }
        }
        lemma_without_absent(rest, pat);
        assert(text =~= seq![text[0]] + rest);
    }
}

/// A pattern whose first character does not come back in it is taken off the end of a text that
/// does not hold it otherwise.
proof fn lemma_without_suffix(stem: Seq<char>, pat: Seq<char>)
    requires
        pat.len() > 0,
        forall|i: int| 0 < i < pat.len() ==> #[trigger] pat[i] != pat[0],
        !occurs(pat, stem),
    ensures
        without(stem + pat, pat) == stem,
    decreases stem.len(),
{
    let text = stem + pat;
    if stem.len() == 0 {
        assert(text =~= pat);
        assert(text.subrange(0, pat.len() as int) =~= pat);
        assert(stands_at(pat, text, 0));
        assert(text.skip(pat.len() as int) =~= Seq::empty());
        assert(without(Seq::<char>::empty(), pat) =~= Seq::empty());
        assert(without(text, pat) =~= stem);
    } else {
        if stands_at(pat, text, 0) {
            let head = text.subrange(0, pat.len() as int);
            assert(head == pat);
            if stem.len() >= pat.len() {
                assert(stem.subrange(0, pat.len() as int) =~= head);
                assert(stands_at(pat, stem, 0));
            } else {
                assert(head[stem.len() as int] == text[stem.len() as int]);
                assert(text[stem.len() as int] == pat[0]);
            }
        }
        let rest = stem.skip(1);
        assert(text.skip(1) =~= rest + pat);
        assert forall|at: int| !stands_at(pat, rest, at) by {
            if stands_at(pat, rest, at) {
                assert(stem.subrange(at + 1, at + 1 + pat.len()) =~= rest.subrange(
                    at,
                    at + pat.len(),
                ));
                assert(stands_at(pat, stem, at + 1));
            }
        }
        lemma_without_suffix(rest, pat);
        assert(stem =~= seq![stem[0]] + rest);
    }
}

/// The report on `stem.heapsnapshot` goes to `stem-analysis.md`.
pub proof fn report_replaces_the_extension(stem: Seq<char>)
    requires
        !occurs(".heapsnapshot"@, stem),
    ensures
        report_path(stem + ".heapsnapshot"@) == stem + "-analysis.md"@,
{
    reveal_strlit(".heapsnapshot");
    lemma_without_suffix(stem, ".heapsnapshot"@);
}

/// The report on a file without the extension goes to its name with `-analysis.md` added.
pub proof fn report_on_another_file_appends(path: Seq<char>)
    requires
        !occurs(".heapsnapshot"@, path),
    ensures
        report_path(path) == path + "-analysis.md"@,
{
    lemma_without_absent(path, ".heapsnapshot"@);
}

/// Each `.heapsnapshot` in the path of a snapshot goes, what stands before and behind it stays,
/// and `-analysis.md` comes at the end.
pub proof fn every_extension_in_a_path_goes(stem: Seq<char>, rest: Seq<char>)
    requires
        !occurs(".heapsnapshot"@, stem),
    ensures
        report_path(stem) == stem + "-analysis.md"@,
        report_path(stem + ".heapsnapshot"@ + rest) == stem + report_path(rest),
{
    reveal_strlit(".heapsnapshot");
    let pat = ".heapsnapshot"@;
    let text = stem + pat + rest;
    assert forall|at: int| 0 <= at < stem.len() implies !stands_at(pat, text, at) by {
        if stands_at(pat, text, at) {
            let found = text.subrange(at, at + pat.len());
            if at + pat.len() <= stem.len() {
                assert(stem.subrange(at, at + pat.len()) =~= found);
                assert(stands_at(pat, stem, at));
            } else {
                let p = stem.len() - at;
                assert(found[p] == text[stem.len() as int]);
                assert(text[stem.len() as int] == pat[0]);
            }
        }
    }
    each_pattern_that_is_met_goes(stem, pat, rest);
    assert(stem + (without(rest, pat) + "-analysis.md"@) =~= (stem + without(rest, pat))
        + "-analysis.md"@);
}

} // verus!
