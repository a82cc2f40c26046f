use vstd::prelude::*;
use crate::text::{contains_str, contains_string, has_infix, lemma_views_contains, views};
use vstd::pervasive::cloned;

verus! {

/// A change to one configuration entry.
#[derive(Debug, Clone, PartialEq, Eq)]
pub enum ConfigEdit {
    /// Drop the entry with this key.
    Remove(String),
    /// Set the entry with this key to this value.
    Insert(String, String),
}

/// An empty value clears the entry; any other value sets it.
pub open spec fn edit_for(r: ConfigEdit, key: Seq<char>, value: Seq<char>) -> bool {
    if value.len() == 0 {
        r matches ConfigEdit::Remove(k) && k@ == key
    } else {
        r matches ConfigEdit::Insert(k, v) && k@ == key && v@ == value
    }
}

fn config_edit(key: &str, value: &String) -> (r: ConfigEdit)
    ensures
        edit_for(r, key@, value@),
{
    if value.as_str().is_empty() {
        ConfigEdit::Remove(key.to_owned())
    } else {
        ConfigEdit::Insert(key.to_owned(), value.clone())
    }
}

/// The change that sets the Minecraft directory (`mc_dir`) to `mc_dir`, or clears it.
pub fn config_mc_dir(mc_dir: &String) -> (r: ConfigEdit)
    ensures
        edit_for(r, "mc_dir"@, mc_dir@),
{
    config_edit("mc_dir", mc_dir)
}

/// The change that sets the Java executable (`java_path`) to `java_path`, or clears it.
pub fn config_java(java_path: &String) -> (r: ConfigEdit)
    ensures
        edit_for(r, "java_path"@, java_path@),
{
    config_edit("java_path", java_path)
}

/// The change that sets the local repository (`repo_dir`) to `repo_dir`, or clears it.
pub fn config_repo(repo_dir: &String) -> (r: ConfigEdit)
    ensures
        edit_for(r, "repo_dir"@, repo_dir@),
{
    config_edit("repo_dir", repo_dir)
}

/// What brings the stored names in line with the files found on disk.
pub struct SyncPlan {
    /// Stored names with no file: to forget.
    pub to_remove: Vec<String>,
    /// Files with no stored name: to record.
    pub to_insert: Vec<String>,
}

proof fn lemma_contains_push(s: Seq<Seq<char>>, x: Seq<char>, y: Seq<char>)
    ensures
        s.push(x).contains(y) <==> s.contains(y) || y == x,
{
    if s.contains(y) {
        let j = choose|j: int| 0 <= j < s.len() && s[j] == y;
        assert(s.push(x)[j] == y);
    }
    if y == x {
        assert(s.push(x)[s.len() as int] == y);
    }
    if s.push(x).contains(y) {
        let j = choose|j: int| 0 <= j < s.len() + 1 && s.push(x)[j] == y;
        if j < s.len() {
            assert(s[j] == y);
        }
    }
}

/// The members of `a` that `b` lacks, each once, in the order of `a`.
fn difference(a: &Vec<String>, b: &Vec<String>) -> (r: Vec<String>)
    ensures
        views(r@).no_duplicates(),
        forall|x: Seq<char>| views(r@).contains(x) <==> views(a@).contains(x) && !views(b@).contains(x),
{
    let mut out: Vec<String> = Vec::new();
    let mut i: usize = 0;
    while i < a.len()
        invariant
            i <= a@.len(),
            views(out@).no_duplicates(),
            forall|x: Seq<char>|
                views(out@).contains(x) <==> views(a@.subrange(0, i as int)).contains(x)
                    && !views(b@).contains(x),
        decreases a.len() - i,
    {
        let ghost before = out@;
        let ghost x = a@[i as int]@;
        assert(views(a@.subrange(0, i + 1)) =~= views(a@.subrange(0, i as int)).push(x));
        let in_b = contains_string(b, &a[i]);
        let seen = contains_string(&out, &a[i]);
        assert(in_b == views(b@).contains(x)) by {
            if in_b {
                let j = choose|j: int| 0 <= j < b@.len() && b@[j]@ == x;
                assert(views(b@)[j] == x);
            }
            if views(b@).contains(x) {
                let j = choose|j: int| 0 <= j < views(b@).len() && views(b@)[j] == x;
                assert(b@[j]@ == x);
            }
        }
        assert(seen == views(out@).contains(x)) by {
            if seen {
                let j = choose|j: int| 0 <= j < out@.len() && out@[j]@ == x;
                assert(views(out@)[j] == x);
            }
            if views(out@).contains(x) {
                let j = choose|j: int| 0 <= j < views(out@).len() && views(out@)[j] == x;
                assert(out@[j]@ == x);
            }
        }
        if !in_b && !seen {
            out.push(a[i].clone());
            assert(views(out@) =~= views(before).push(x));
        }
        assert forall|y: Seq<char>|
            views(out@).contains(y) <==> views(a@.subrange(0, i + 1)).contains(y) && !views(
                b@,
            ).contains(y) by {
            lemma_contains_push(views(a@.subrange(0, i as int)), x, y);
            lemma_contains_push(views(before), x, y);
        }
        i = i + 1;
    }
    assert(a@.subrange(0, i as int) =~= a@);
    out
}

/// Compares the names stored in the database with the files found in the
/// repository: stored names without a file are to be removed, files without
/// a stored name are to be recorded. Each name appears once.
pub fn sync_vec_to_db(keys_in_db: &Vec<String>, vec: &Vec<String>) -> (r: SyncPlan)
    ensures
        views(r.to_remove@).no_duplicates(),
        views(r.to_insert@).no_duplicates(),
        forall|x: Seq<char>|
            views(r.to_remove@).contains(x) <==> views(keys_in_db@).contains(x) && !views(
                vec@,
            ).contains(x),
        forall|x: Seq<char>|
            views(r.to_insert@).contains(x) <==> views(vec@).contains(x) && !views(
                keys_in_db@,
            ).contains(x),
{
    SyncPlan { to_remove: difference(keys_in_db, vec), to_insert: difference(vec, keys_in_db) }
}

/// `x` contains at least one of `patterns`.
pub open spec fn matches_any(x: Seq<char>, patterns: Seq<Seq<char>>) -> bool {
    exists|j: int| 0 <= j < patterns.len() && has_infix(x, patterns[j])
}

/// The stored names that contain any of `patterns`, each once, in the order
/// of `current_files`. The empty pattern matches every name.
pub fn gather_2delete_files(current_files: Vec<String>, patterns: &Vec<String>) -> (r: Vec<String>)
    ensures
        views(r@).no_duplicates(),
        forall|x: Seq<char>|
            views(r@).contains(x) <==> views(current_files@).contains(x) && matches_any(
                x,
                views(patterns@),
            ),
{
    let mut out: Vec<String> = Vec::new();
    let mut i: usize = 0;
    while i < current_files.len()
        invariant
            i <= current_files@.len(),
            views(out@).no_duplicates(),
            forall|x: Seq<char>|
                views(out@).contains(x) <==> views(current_files@.subrange(0, i as int)).contains(x)
                    && matches_any(x, views(patterns@)),
        decreases current_files.len() - i,
    {
        let ghost before = out@;
        let ghost x = current_files@[i as int]@;
        assert(views(current_files@.subrange(0, i + 1)) =~= views(
            current_files@.subrange(0, i as int),
        ).push(x));
        let mut hit = false;
        let mut j: usize = 0;
        while j < patterns.len()
            invariant
                j <= patterns@.len(),
                x == current_files@[i as int]@,
                i < current_files@.len(),
                hit == exists|k: int| 0 <= k < j && has_infix(x, patterns@[k]@),
            decreases patterns.len() - j,
        {
            if contains_str(current_files[i].as_str(), patterns[j].as_str()) {
                hit = true;
            }
            j = j + 1;
        }
        assert(hit == matches_any(x, views(patterns@))) by {
            if hit {
                let k = choose|k: int| 0 <= k < j && has_infix(x, patterns@[k]@);
                assert(views(patterns@)[k] == patterns@[k]@);
            }
            if matches_any(x, views(patterns@)) {
                let k = choose|k: int|
                    0 <= k < views(patterns@).len() && has_infix(x, views(patterns@)[k]);
                assert(views(patterns@)[k] == patterns@[k]@);
            }
        }
        let seen = contains_string(&out, &current_files[i]);
        assert(seen == views(out@).contains(x)) by {
            if seen {
                let k = choose|k: int| 0 <= k < out@.len() && out@[k]@ == x;
                assert(views(out@)[k] == x);
            }
            if views(out@).contains(x) {
                let k = choose|k: int| 0 <= k < views(out@).len() && views(out@)[k] == x;
                assert(out@[k]@ == x);
            }
        }
        if hit && !seen {
            out.push(current_files[i].clone());
            assert(views(out@) =~= views(before).push(x));
        }
        assert forall|y: Seq<char>|
            views(out@).contains(y) <==> views(current_files@.subrange(0, i + 1)).contains(y)
                && matches_any(y, views(patterns@)) by {
            lemma_contains_push(views(current_files@.subrange(0, i as int)), x, y);
            lemma_contains_push(views(before), x, y);
        }
        i = i + 1;
    }
    assert(current_files@.subrange(0, i as int) =~= current_files@);
    out
}

/// Column `j` of `rows`: the `j`-th item of every row long enough to have one, top to bottom.
pub open spec fn column<T>(rows: Seq<Vec<T>>, j: int) -> Seq<T>
    decreases rows.len(),
{
    if rows.len() == 0 {
        Seq::empty()
    } else {
        let c = column(rows.drop_last(), j);
        if 0 <= j < rows.last()@.len() {
            c.push(rows.last()@[j])
        } else {
            c
        }
    }
}

/// `b` holds a clone of each item of `a`, in the same order.
pub open spec fn clones_of<T: Clone>(a: Seq<T>, b: Seq<T>) -> bool {
    a.len() == b.len() && forall|m: int| 0 <= m < a.len() ==> cloned(a[m], #[trigger] b[m])
}

/// Turns rows into columns: row `j` of the result holds the `j`-th item of
/// every row of `matrix` that has one. No row may be longer than the first.
pub fn transpose<T: Clone>(matrix: &Vec<Vec<T>>) -> (r: Vec<Vec<T>>)
    requires
        matrix@.len() > 0,
        forall|i: int| 0 <= i < matrix@.len() ==> (#[trigger] matrix@[i])@.len() <= matrix@[0]@.len(),
    ensures
        r@.len() == matrix@[0]@.len(),
        forall|j: int| 0 <= j < r@.len() ==> clones_of(column(matrix@, j), (#[trigger] r@[j])@),
{
    let w = matrix[0].len();
    let mut transposed: Vec<Vec<T>> = Vec::new();
    while transposed.len() < w
        invariant
            transposed@.len() <= w,
            forall|j: int| 0 <= j < transposed@.len() ==> (#[trigger] transposed@[j])@.len() == 0,
        decreases w - transposed.len(),
    {
        transposed.push(Vec::new());
    }
    let mut i: usize = 0;
    while i < matrix.len()
        invariant
            i <= matrix@.len(),
            w == matrix@[0]@.len(),
            transposed@.len() == w,
            forall|i: int| 0 <= i < matrix@.len() ==> (#[trigger] matrix@[i])@.len() <= matrix@[0]@.len(),
            forall|j: int|
                0 <= j < w ==> clones_of(
                    column(matrix@.subrange(0, i as int), j),
                    (#[trigger] transposed@[j])@,
                ),
        decreases matrix.len() - i,
    {
        let ghost pre = matrix@.subrange(0, i as int);
        let ghost next = matrix@.subrange(0, i + 1);
        assert(next.drop_last() =~= pre);
        let row = &matrix[i];
        assert(row@.len() <= w);
        let mut j: usize = 0;
        while j < row.len()
            invariant
                j <= row@.len() <= w,
                transposed@.len() == w,
                row == matrix@[i as int],
                next.len() == i + 1,
                next.last() == row,
                next.drop_last() == pre,
                forall|c: int|
                    0 <= c < j ==> clones_of(column(next, c), (#[trigger] transposed@[c])@),
                forall|c: int|
                    j <= c < w ==> clones_of(column(pre, c), (#[trigger] transposed@[c])@),
            decreases row.len() - j,
        {
            let mut col: Vec<T> = Vec::new();
            transposed.set_and_swap(j, &mut col);
            let ghost before = col@;
            assert(clones_of(column(pre, j as int), before));
            let item = row[j].clone();
            col.push(item);
            assert(next.len() > 0);
            assert(next.last()@ == row@);
            assert(column(next, j as int) == column(pre, j as int).push(row@[j as int]));
            transposed.set_and_swap(j, &mut col);
            assert(clones_of(column(next, j as int), transposed@[j as int]@)) by {
                assert(transposed@[j as int]@ == before.push(item));
            }
            j = j + 1;
        }
        assert forall|c: int| 0 <= c < w implies clones_of(
            column(next, c),
            (#[trigger] transposed@[c])@,
        ) by {
            if c >= j {
                assert(column(next, c) == column(pre, c));
            }
        }
        i = i + 1;
    }
    assert(matrix@.subrange(0, i as int) =~= matrix@);
    transposed
}

/// The number of `true` items of `s`.
pub open spec fn count_true(s: Seq<bool>) -> nat
    decreases s.len(),
{
    if s.len() == 0 {
        0
    } else {
        count_true(s.drop_last()) + if s.last() {
            1nat
        } else {
            0nat
        }
    }
}

/// Counts the successes and failures among the outcomes of parallel tasks.
pub fn tally(outcomes: &Vec<bool>) -> (r: (usize, usize))
    ensures
        r.0 == count_true(outcomes@),
        r.0 + r.1 == outcomes@.len(),
{
    let mut succ: usize = 0;
    let mut fail: usize = 0;
    let mut i: usize = 0;
    while i < outcomes.len()
        invariant
            i <= outcomes@.len(),
            succ == count_true(outcomes@.subrange(0, i as int)),
            succ + fail == i,
        decreases outcomes.len() - i,
    {
        assert(outcomes@.subrange(0, i + 1).drop_last() =~= outcomes@.subrange(0, i as int));
        if outcomes[i] {
            succ = succ + 1;
        } else {
            fail = fail + 1;
        }
        i = i + 1;
    }
    assert(outcomes@.subrange(0, i as int) =~= outcomes@);
    (succ, fail)
}

/// Whether a directory looks like a Minecraft root: it is named
/// `.minecraft` and has the `resourcepacks`, `saves` and `versions`
/// subdirectories.
pub fn looks_like_mc_dir(dir_name: &String, subdirs: &Vec<String>) -> (r: bool)
    ensures
        r == (dir_name@ == ".minecraft"@ && views(subdirs@).contains("resourcepacks"@) && views(
            subdirs@,
        ).contains("saves"@) && views(subdirs@).contains("versions"@)),
{
    let a = contains_string(subdirs, &"resourcepacks".to_owned());
    let b = contains_string(subdirs, &"saves".to_owned());
    let c = contains_string(subdirs, &"versions".to_owned());
    proof {
        lemma_views_contains(subdirs@, "resourcepacks"@);
        lemma_views_contains(subdirs@, "saves"@);
        lemma_views_contains(subdirs@, "versions"@);
    }
    *dir_name == ".minecraft".to_owned() && a && b && c
}

} // verus!
