use vstd::prelude::*;
use crate::index::{destruct_input, destructed, parse, rejected, tokens, ParsedRange};
use crate::order::{record_views, sort_vers, stably_sorted, CatalogOrder, SortBy};
use crate::text::views;
use crate::scrape::index_ranges;
use crate::text::{append_str, contains_str, first_group, has_infix, regex_group};

verus! {

/// Why applying a version failed.
#[derive(Debug, Clone, Copy, PartialEq, Eq)]
pub enum InvokeError {
    ExitFail,
    InvokeFail,
    UserCancel,
    McDirNotFound,
    LauncherProfileRead,
}

/// The stored names that contain `pat`, in order.
pub open spec fn named_like(stored: Seq<Seq<char>>, pat: Seq<char>) -> Seq<Seq<char>> {
    stored.filter(|k: Seq<char>| has_infix(k, pat))
}

/// Names as records without a timestamp.
pub open spec fn bare_records(names: Seq<Seq<char>>) -> Seq<(Seq<char>, Seq<char>)> {
    names.map_values(|k: Seq<char>| (k, Seq::<char>::empty()))
}

fn names_containing(stored: &Vec<String>, pat: &str) -> (r: Vec<String>)
    ensures
        views(r@) == named_like(views(stored@), pat@),
{
    let ghost all = views(stored@);
    let ghost pred = |k: Seq<char>| has_infix(k, pat@);
    let mut out: Vec<String> = Vec::new();
    let mut i: usize = 0;
    assert(all.subrange(0, 0).filter(pred) =~= Seq::empty()) by {
        reveal(Seq::filter);
    }
    while i < stored.len()
        invariant
            i <= stored@.len(),
            all == views(stored@),
            pred == (|k: Seq<char>| has_infix(k, pat@)),
            views(out@) == all.subrange(0, i as int).filter(pred),
        decreases stored.len() - i,
    {
        let ghost before = out@;
        let k = &stored[i];
        assert(all.subrange(0, i + 1) =~= all.subrange(0, i as int).push(k@));
        proof {
            all.subrange(0, i as int).lemma_filter_push(k@, pred);
        }
        if contains_str(k.as_str(), pat) {
            out.push(k.clone());
            assert(views(out@) =~= views(before).push(k@));
        }
        i = i + 1;
    }
    assert(all.subrange(0, i as int) =~= all);
    out
}

/// Picks the stored version that `version` designates.
///
/// `mc[index]` takes the stored versions whose name contains `mc_`, orders
/// them by catalog rank, and designates the one at the position of `index`
/// when `index` is one single position and nothing in it was rejected. Any
/// other input designates the first stored name that contains it.
pub fn select_to_apply(version: &String, stored: &Vec<String>, order: &CatalogOrder) -> (r: Option<
    String,
>)
    ensures
        match destructed(version@) {
            Some((mc, index)) => {
                let cands = named_like(views(stored@), mc + seq!['_']);
                let n = cands.len();
                let ranges = index_ranges(index, n);
                let clean = index.len() == 0 || rejected(tokens(index), n).len() == 0;
                if n > 0 && clean && ranges.len() == 1 && ranges[0] is Single {
                    exists|sorted: Seq<(Seq<char>, Seq<char>)>|
                        stably_sorted(sorted, bare_records(cands), order@, SortBy::NameNew)
                            && r is Some && r->0@ == sorted[ranges[0]->Single_0 - 1].0
                } else {
                    r is None
                }
            },
            None => {
                let hits = named_like(views(stored@), version@);
                if hits.len() > 0 {
                    r is Some && r->0@ == hits[0]
                } else {
                    r is None
                }
            },
        },
{
    match destruct_input(version.as_str()) {
        Some((mc_ver, index)) => {
            let mut pat = mc_ver.clone();
            append_str(&mut pat, "_");
            assert(pat@ == mc_ver@ + seq!['_']) by {
                reveal_strlit("_");
            }
            let names = names_containing(stored, pat.as_str());
            let mut recs: Vec<(String, String)> = Vec::new();
            let mut i: usize = 0;
            while i < names.len()
                invariant
                    i <= names@.len(),
                    record_views(recs@) == bare_records(views(names@)).subrange(0, i as int),
                decreases names.len() - i,
            {
                let ghost before = recs@;
                let name = names[i].clone();
                let blank = String::new();
                assert(bare_records(views(names@)).subrange(0, i + 1) =~= bare_records(
                    views(names@),
                ).subrange(0, i as int).push((name@, blank@)));
                recs.push((name, blank));
                assert(record_views(recs@) =~= record_views(before).push((name@, blank@)));
                i = i + 1;
            }
            assert(bare_records(views(names@)).subrange(0, i as int) =~= bare_records(
                views(names@),
            ));
            let sorted = sort_vers(recs, order, SortBy::NameNew);
            let n = sorted.len();
            let (valid, invalid) = parse(index.as_str(), n);
            if n > 0 && invalid.len() == 0 && valid.len() == 1 {
                match &valid[0] {
                    ParsedRange::Single(i) => {
                        if *i >= 1 && *i <= n {
                            return Some(sorted[*i - 1].0.clone());
                        }
                    },
                    _ => {},
                }
            }
            None
        },
        None => {
            let hits = names_containing(stored, version.as_str());
            if hits.len() > 0 {
                Some(hits[0].clone())
            } else {
                None
            }
        },
    }
}

/// The verdict on a launch of the installer: an unchanged (or vanished)
/// last-use time means the user cancelled; otherwise the exit status decides.
pub open spec fn launch_verdict(
    before: Option<Seq<char>>,
    after: Option<Seq<char>>,
    exit_ok: bool,
) -> Result<(), InvokeError> {
    if before is Some && (after is None || after->0 == before->0) {
        Err(InvokeError::UserCancel)
    } else if exit_ok {
        Ok(())
    } else {
        Err(InvokeError::ExitFail)
    }
}

/// Judges a launch from the last-use times read before and after it and
/// from whether the installer exited successfully.
pub fn judge_launch(before: &Option<String>, after: &Option<String>, exit_ok: bool) -> (r: Result<
    (),
    InvokeError,
>)
    ensures
        r == launch_verdict(
            match before {
                Some(s) => Some(s@),
                None => None,
            },
            match after {
                Some(s) => Some(s@),
                None => None,
            },
            exit_ok,
        ),
{
    let cancelled = match (before, after) {
        (Some(d1), Some(d2)) => *d1 == *d2,
        (Some(_), None) => true,
        _ => false,
    };
    if cancelled {
        Err(InvokeError::UserCancel)
    } else if exit_ok {
        Ok(())
    } else {
        Err(InvokeError::ExitFail)
    }
}

/// Where a launcher profile records when the Optifine profile was last used.
pub open spec fn last_used_pattern() -> Seq<char> {
    "\"OptiFine\"\\s*:\\s*\\{[^}]*\"lastUsed\"\\s*:\\s*\"([^\"]+)\""@
}

/// The last-use time of the Optifine profile in a launcher profile file.
pub fn get_modify_time(raw_profile: &str) -> (r: Option<String>)
    ensures
        match r {
            Some(t) => regex_group(last_used_pattern(), raw_profile@) == Some(t@),
            None => regex_group(last_used_pattern(), raw_profile@) is None,
        },
{
    first_group("\"OptiFine\"\\s*:\\s*\\{[^}]*\"lastUsed\"\\s*:\\s*\"([^\"]+)\"", raw_profile)
}

/// Judges a launch from the launcher profile read before and after it and
/// from whether the installer exited successfully.
pub fn launch_outcome(profile_before: &str, profile_after: &str, exit_ok: bool) -> (r: Result<
    (),
    InvokeError,
>)
    ensures
        r == launch_verdict(
            regex_group(last_used_pattern(), profile_before@),
            regex_group(last_used_pattern(), profile_after@),
            exit_ok,
        ),
{
    let before = get_modify_time(profile_before);
    let after = get_modify_time(profile_after);
    judge_launch(&before, &after, exit_ok)
}

} // verus!
