//! Files touched by a commit, the git and diff command lines the tool
//! runs, and the readers of what those commands print.
use vstd::prelude::*;
use crate::text::views;
use crate::text::split_pieces;
use crate::text::line_pieces;
use crate::text::split_on;
use crate::text::split_lines;
use crate::text::last_piece;
use crate::text::lemma_split_nonempty;

verus! {

/// A file that a commit modified: its path and its lines at that commit.
#[derive(Debug)]
pub struct ModifiedFile {
    pub path: String,
    pub content: Vec<String>,
}

/// `a` followed by `b`.
fn concat2(a: &str, b: &str) -> (r: String)
    ensures
        r@ == a@ + b@,
{
    let mut r = String::from_str(a);
    r.append(b);
    r
}

/// `a`, `b` and `c` one after the other.
fn concat3(a: &str, b: &str, c: &str) -> (r: String)
    ensures
        r@ == a@ + b@ + c@,
{
    let mut r = concat2(a, b);
    r.append(c);
    r
}

/// `a`, `b`, `c`, `d` and `e` one after the other.
fn concat5(a: &str, b: &str, c: &str, d: &str, e: &str) -> (r: String)
    ensures
        r@ == a@ + b@ + c@ + d@ + e@,
{
    let mut r = concat3(a, b, c);
    r.append(d);
    r.append(e);
    r
}

/// The command that prints the commit date of `hash`.
pub fn date_command(hash: &String) -> (r: String)
    ensures
        r@ == "git show "@ + hash@ + " -s --date=iso --format=\"%cd\""@,
{
    concat3("git show ", hash.as_str(), " -s --date=iso --format=\"%cd\"")
}

/// The command that prints the commit that added `file_path`, following
/// renames, as seen from `hash`.
pub fn insertion_commit_command(hash: &String, file_path: &String) -> (r: String)
    ensures
        r@ == "git log --follow --diff-filter=A --find-renames=90% --pretty=%H "@ + hash@
            + " -- "@ + file_path@,
{
    let mut r = concat3(
        "git log --follow --diff-filter=A --find-renames=90% --pretty=%H ",
        hash.as_str(),
        " -- ",
    );
    r.append(file_path.as_str());
    r
}

/// The command that lists, newest first, the commits from `hash_one` to
/// `hash_two` that touched `file_path`.
pub fn commits_touch_file_command(hash_one: &String, hash_two: &String, file_path: &String) -> (r:
    String)
    ensures
        r@ == "git rev-list "@ + hash_one@ + "^.."@ + hash_two@ + " -- "@ + file_path@,
{
    let mut r = concat5("git rev-list ", hash_one.as_str(), "^..", hash_two.as_str(), " -- ");
    r.append(file_path.as_str());
    r
}

/// The commit that added a file, from what `insertion_commit_command`
/// printed: the output with its line breaks taken out.
pub fn insertion_commit_id(output: &String) -> (r: String)
    ensures
        r@ == crate::text::without_char(output@, '\n'),
{
    crate::text::remove_char(output.as_str(), '\n')
}

/// The non-empty entries of `pieces`, last first.
pub open spec fn nonempty_reversed(pieces: Seq<Seq<char>>) -> Seq<Seq<char>>
    decreases pieces.len(),
{
    if pieces.len() == 0 {
        Seq::empty()
    } else {
        let rest = nonempty_reversed(pieces.drop_last());
        if pieces.last().len() == 0 {
            rest
        } else {
            seq![pieces.last()].add(rest)
        }
    }
}

/// The non-empty entries of `pieces`, in their order.
pub open spec fn nonempty_lines(pieces: Seq<Seq<char>>) -> Seq<Seq<char>> {
    pieces.filter(|p: Seq<char>| p.len() > 0)
}

/// The commit list is the exact reversal of the non-empty lines: as many
/// entries, the first being the last non-empty line, and so on.
pub proof fn lemma_commit_list_reverses(pieces: Seq<Seq<char>>)
    ensures
        nonempty_reversed(pieces).len() == nonempty_lines(pieces).len(),
        forall|i: int|
            0 <= i < nonempty_reversed(pieces).len() ==> #[trigger] nonempty_reversed(pieces)[i]
                == nonempty_lines(pieces)[nonempty_lines(pieces).len() - 1 - i],
    decreases pieces.len(),
{
    if pieces.len() > 0 {
        let d = pieces.drop_last();
        lemma_commit_list_reverses(d);
        let r = nonempty_reversed(pieces);
        let rd = nonempty_reversed(d);
        let ne = nonempty_lines(pieces);
        let ned = nonempty_lines(d);
        reveal_with_fuel(Seq::filter, 2);
        if pieces.last().len() > 0 {
            assert(ne == ned.push(pieces.last()));
            assert forall|i: int| 0 <= i < r.len() implies #[trigger] r[i] == ne[ne.len() - 1 - i] by {
                if i > 0 {
                    assert(r[i] == rd[i - 1]);
                    assert(ne[ne.len() - 1 - i] == ned[ned.len() - 1 - (i - 1)]);
                }
            }
        } else {
            assert(ne == ned);
        }
    }
}

/// The commits `commits_touch_file_command` printed, oldest first: its
/// output split at line breaks, empty entries dropped, order reversed.
pub fn get_commits_touch_file(output: &String) -> (r: Result<Vec<String>, ()>)
    ensures
        r matches Ok(v) && views(v@) == nonempty_reversed(split_pieces(output@, '\n')),
        r matches Ok(v) && v@.len() == nonempty_lines(split_pieces(output@, '\n')).len(),
        r matches Ok(v) && forall|i: int|
            0 <= i < v@.len() ==> #[trigger] v@[i]@ == nonempty_lines(
                split_pieces(output@, '\n'),
            )[v@.len() - 1 - i],
{
    proof {
        lemma_commit_list_reverses(split_pieces(output@, '\n'));
    }
    let pieces = split_on(output.as_str(), '\n');
    let ghost ps = split_pieces(output@, '\n');
    let mut res: Vec<String> = Vec::new();
    let mut i = pieces.len();
    proof {
        assert(ps.take(ps.len() as int) == ps);
        assert(views(res@) =~= Seq::<Seq<char>>::empty());
    }
    while i > 0
        invariant
            i <= pieces@.len() == ps.len(),
            views(pieces@) == ps,
            nonempty_reversed(ps) == views(res@) + nonempty_reversed(ps.take(i as int)),
        decreases i,
    {
        proof {
            assert(ps.take(i as int).drop_last() == ps.take(i - 1));
            assert(ps.take(i as int).last() == pieces@[i - 1]@);
        }
        let ghost prev = res@;
        if pieces[i - 1].as_str().unicode_len() != 0 {
            res.push(pieces[i - 1].clone());
            proof {
                crate::text::lemma_views_push(prev, pieces@[i - 1]);
                assert(views(res@) + nonempty_reversed(ps.take(i - 1)) =~= views(prev)
                    + nonempty_reversed(ps.take(i as int)));
            }
        }
        i = i - 1;
    }
    proof {
        assert(ps.take(0) =~= Seq::<Seq<char>>::empty());
        assert(views(res@) + Seq::<Seq<char>>::empty() =~= views(res@));
        assert forall|i: int| 0 <= i < res@.len() implies #[trigger] res@[i]@ == views(res@)[i] by {}
    }
    Ok(res)
}

/// The command that prints the repository's first commit.
pub fn first_commit_command() -> (r: String)
    ensures
        r@ == "git rev-list HEAD | tail -n 1"@,
{
    String::from_str("git rev-list HEAD | tail -n 1")
}

/// The command that lists the files `hash` modified, chosen from what
/// `first_commit_command` printed: the first commit is compared with the
/// working tree, any other commit with its parents.
pub fn modified_files_command(hash: &String, first_commit_output: &String) -> (r: String)
    ensures
        ({
            let first = split_pieces(first_commit_output@, '\n')[0];
            r@ == if hash@ == first {
                "git diff-tree --no-commit-id --name-only -r "@ + hash@ + " HEAD"@
            } else {
                "git log -m -1 --name-only --pretty=format: "@ + hash@
            }
        }),
{
    let pieces = split_on(first_commit_output.as_str(), '\n');
    proof {
        lemma_split_nonempty(first_commit_output@, '\n');
        assert(views(pieces@)[0] == pieces@[0]@);
    }
    if *hash == pieces[0] {
        concat3("git diff-tree --no-commit-id --name-only -r ", hash.as_str(), " HEAD")
    } else {
        concat2("git log -m -1 --name-only --pretty=format: ", hash.as_str())
    }
}

/// The command that prints the commit checked out now.
pub fn head_command() -> (r: String)
    ensures
        r@ == "git rev-parse HEAD"@,
{
    String::from_str("git rev-parse HEAD")
}

/// The command that checks out `hash`.
pub fn checkout_command(hash: &String) -> (r: String)
    ensures
        r@ == "git checkout "@ + hash@,
{
    concat2("git checkout ", hash.as_str())
}

/// The command that clones `repo_name` from `git_cloud_base_url`.
pub fn clone_command(git_cloud_base_url: &String, repo_name: &String) -> (r: String)
    ensures
        r@ == "git clone "@ + git_cloud_base_url@ + repo_name@ + ".git"@,
{
    let mut r = concat3("git clone ", git_cloud_base_url.as_str(), repo_name.as_str());
    r.append(".git");
    r
}

/// The command that compares two files, hunk by hunk.
pub fn diff_command(file_a: &String, file_b: &String) -> (r: String)
    ensures
        r@ == "diff -a -d "@ + file_a@ + " "@ + file_b@,
{
    let mut r = concat3("diff -a -d ", file_a.as_str(), " ");
    r.append(file_b.as_str());
    r
}

/// `dir/name`.
pub fn join_path(dir: &String, name: &String) -> (r: String)
    ensures
        r@ == dir@ + "/"@ + name@,
{
    concat3(dir.as_str(), "/", name.as_str())
}

/// The lines of a file's text.
pub fn file_lines(data: &String) -> (r: Vec<String>)
    ensures
        views(r@) == line_pieces(data@),
{
    split_lines(data.as_str())
}

/// The two temporary files the versions of `file_path` at `hash_a` and
/// `hash_b` are compared in: `work_directory`, the file's name, `_`, the
/// commit and `.txt`.
pub fn get_files_diff(
    hash_a: &String,
    hash_b: &String,
    file_path: &String,
    work_directory: &String,
) -> (r: (String, String))
    ensures
        r.0@ == work_directory@ + split_pieces(file_path@, '/').last() + "_"@ + hash_a@ + ".txt"@,
        r.1@ == work_directory@ + split_pieces(file_path@, '/').last() + "_"@ + hash_b@ + ".txt"@,
{
    let name_file = last_piece(file_path.as_str(), '/');
    let file_a = concat5(work_directory.as_str(), name_file.as_str(), "_", hash_a.as_str(), ".txt");
    let file_b = concat5(work_directory.as_str(), name_file.as_str(), "_", hash_b.as_str(), ".txt");
    (file_a, file_b)
}

/// The file a temporary copy is written to: `path/name_format`.
pub fn temp_file_path(name: &String, format: &String, path: &String) -> (r: String)
    ensures
        r@ == path@ + "/"@ + name@ + "_"@ + format@,
{
    concat5(path.as_str(), "/", name.as_str(), "_", format.as_str())
}

impl ModifiedFile {
    /// The modified file `file_path` with the lines retrieved for it, or
    /// the error met retrieving them.
    pub fn from_retrive_file(file_path: &String, retrieved: Result<Vec<String>, String>) -> (r:
        Result<ModifiedFile, String>)
        ensures
            match retrieved {
                Ok(content) => r matches Ok(m) && m.path@ == file_path@ && m.content@
                    == content@,
                Err(e) => r matches Err(f) && f@ == e@,
            },
    {
        match retrieved {
            Ok(content) => Ok(ModifiedFile { path: file_path.clone(), content }),
            Err(e) => Err(e),
        }
    }

    /// The modified files named one per line in `paths`, each with the
    /// lines retrieved for it (`retrieved[i]` for the `i`-th path); the
    /// first retrieval error when there is one.
    pub fn from_lines_to_vec(paths: &String, retrieved: Vec<Result<Vec<String>, String>>) -> (r:
        Result<Vec<ModifiedFile>, String>)
        requires
            retrieved@.len() == line_pieces(paths@).len(),
        ensures
            match first_error(retrieved@) {
                Some(k) => r matches Err(e) && retrieved@[k] matches Err(f) && e@ == f@,
                None => r matches Ok(v) && v@.len() == retrieved@.len() && forall|i: int|
                    0 <= i < v@.len() ==> (#[trigger] v@[i]).path@ == line_pieces(paths@)[i]
                        && retrieved@[i] == Ok::<Vec<String>, String>(v@[i].content),
            },
    {
        let lines = split_lines(paths.as_str());
        let mut out: Vec<ModifiedFile> = Vec::new();
        let mut rest = retrieved;
        let ghost all = rest@;
        let mut taken: Vec<Result<Vec<String>, String>> = Vec::new();
        proof {
            assert(all.take(0) =~= Seq::<Result<Vec<String>, String>>::empty());
        }
        let mut i: usize = 0;
        while i < lines.len()
            invariant
                i <= lines@.len() == all.len(),
                views(lines@) == line_pieces(paths@),
                all == retrieved@,
                rest@ == all.skip(i as int),
                first_error(all.take(i as int)) is None,
                out@.len() == i,
                forall|j: int|
                    0 <= j < i ==> (#[trigger] out@[j]).path@ == line_pieces(paths@)[j]
                        && all[j] == Ok::<Vec<String>, String>(out@[j].content),
            decreases lines@.len() - i,
        {
            let item = rest.remove(0);
            proof {
                assert(item == all[i as int]);
                assert(rest@ =~= all.skip(i + 1));
                assert(all.take(i + 1).drop_last() == all.take(i as int));
                assert(views(lines@)[i as int] == lines@[i as int]@);
            }
            match item {
                Err(e) => {
                    proof {
                        lemma_first_error_at(all, i as int);
                    }
                    return Err(e);
                },
                Ok(content) => {
                    out.push(ModifiedFile { path: lines[i].clone(), content });
                },
            }
            i = i + 1;
        }
        proof {
            assert(all.take(i as int) == all);
        }
        Ok(out)
    }
}

/// The position of the first error among retrieval results.
pub open spec fn first_error(v: Seq<Result<Vec<String>, String>>) -> Option<int>
    decreases v.len(),
{
    if v.len() == 0 {
        None
    } else {
        match first_error(v.drop_last()) {
            Some(k) => Some(k),
            None => if v.last() is Err {
                Some(v.len() - 1)
            } else {
                None
            },
        }
    }
}

proof fn lemma_first_error_at(v: Seq<Result<Vec<String>, String>>, i: int)
    requires
        0 <= i < v.len(),
        first_error(v.take(i)) is None,
        v[i] is Err,
    ensures
        first_error(v) == Some(i),
    decreases v.len(),
{
    if i == v.len() - 1 {
        assert(v.take(i) == v.drop_last());
    } else {
        assert(v.drop_last().take(i) == v.take(i));
        lemma_first_error_at(v.drop_last(), i);
    }
}


/// No commit read from `git rev-list` output is empty, and each is a line
/// of that output.
pub proof fn lemma_commit_list_entries(pieces: Seq<Seq<char>>)
    ensures
        forall|i: int|
            0 <= i < nonempty_reversed(pieces).len() ==> (#[trigger] nonempty_reversed(
                pieces,
            )[i]).len() > 0 && pieces.contains(nonempty_reversed(pieces)[i]),
    decreases pieces.len(),
{
    if pieces.len() > 0 {
        let d = pieces.drop_last();
        lemma_commit_list_entries(d);
        let rest = nonempty_reversed(d);
        let all = nonempty_reversed(pieces);
        assert forall|i: int| 0 <= i < all.len() implies (#[trigger] all[i]).len() > 0
            && pieces.contains(all[i]) by {
            if pieces.last().len() == 0 {
                assert(all[i] == rest[i]);
                let k = choose|k: int| 0 <= k < d.len() && d[k] == rest[i];
                assert(pieces[k] == d[k]);
            } else if i == 0 {
                assert(all[0] == pieces.last());
                assert(pieces[pieces.len() - 1] == pieces.last());
            } else {
                assert(all[i] == rest[i - 1]);
                let k = choose|k: int| 0 <= k < d.len() && d[k] == rest[i - 1];
                assert(pieces[k] == d[k]);
            }
        }
    }
}

} // verus!
