use vstd::prelude::*;
use crate::index::{
    destruct_input, destructed, pair_views, parse, purified, purify, rejected, tokens,
    valid_ranges, ParsedRange,
};
use crate::ordered_set::set_to_vec;
use crate::text::{
    append_str, contains_str, contains_string, first_group, has_infix, lemma_views_contains,
    regex_group, replace_all, replaced, starts_with_str, views,
};

verus! {

/// Why the remote catalog could not be read.
#[derive(Debug, Clone, Copy, PartialEq, Eq)]
pub enum ScrapeError {
    Reqwest,
    ScraperSelector,
    Io,
}

/// The remote catalog: Minecraft versions, and every Optifine version in
/// the catalog's order.
pub struct Scraper {
    pub mc_vers: Vec<String>,
    pub all_opt_vers: Vec<String>,
}

/// `v` starts with `prefix`.
pub open spec fn starts_with(v: Seq<char>, prefix: Seq<char>) -> bool {
    prefix.len() <= v.len() && v.subrange(0, prefix.len() as int) == prefix
}

/// The Optifine versions of Minecraft version `mc`: those named `mc_...`, in catalog order.
pub open spec fn opt_vers_of(all: Seq<Seq<char>>, mc: Seq<char>) -> Seq<Seq<char>> {
    all.filter(|v: Seq<char>| starts_with(v, mc + seq!['_']))
}

/// The Minecraft versions that the catalog's headings name: each heading
/// without its `Minecraft ` label.
pub open spec fn heading_versions(headings: Seq<Seq<char>>) -> Seq<Seq<char>> {
    headings.map_values(|h: Seq<char>| replaced(h, "Minecraft "@, ""@))
}

/// How a download link names its Optifine file.
pub open spec fn opt_file_pattern() -> Seq<char> {
    "OptiFine_(.*?).jar"@
}

/// The Optifine versions that the catalog's download links name, in order.
pub open spec fn link_versions(links: Seq<Seq<char>>) -> Seq<Seq<char>>
    decreases links.len(),
{
    if links.len() == 0 {
        Seq::empty()
    } else {
        let r = link_versions(links.drop_last());
        match regex_group(opt_file_pattern(), links.last()) {
            Some(v) => r.push(v),
            None => r,
        }
    }
}

impl Scraper {
    /// The catalog that a download page describes, from the texts of its
    /// version headings and the targets of its download links; each version
    /// is kept once, in the order of the page.
    pub fn from_page(headings: &Vec<String>, links: &Vec<String>) -> (r: Scraper)
        ensures
            views(r.mc_vers@) == add_names(Seq::empty(), heading_versions(views(headings@))),
            views(r.all_opt_vers@) == add_names(Seq::empty(), link_versions(views(links@))),
    {
        let mut names: Vec<String> = Vec::new();
        let mut i: usize = 0;
        while i < headings.len()
            invariant
                i <= headings@.len(),
                views(names@) == heading_versions(views(headings@)).subrange(0, i as int),
            decreases headings.len() - i,
        {
            let ghost before = names@;
            let v = replace_all(headings[i].as_str(), "Minecraft ", "");
            names.push(v);
            assert(views(names@) =~= views(before).push(v@));
            assert(heading_versions(views(headings@))[i as int] == replaced(
                headings@[i as int]@,
                "Minecraft "@,
                ""@,
            ));
            assert(views(names@) =~= heading_versions(views(headings@)).subrange(0, i + 1));
            i = i + 1;
        }
        assert(heading_versions(views(headings@)).subrange(0, i as int) =~= heading_versions(
            views(headings@),
        ));
        let mut found: Vec<String> = Vec::new();
        let mut i: usize = 0;
        while i < links.len()
            invariant
                i <= links@.len(),
                views(found@) == link_versions(views(links@).subrange(0, i as int)),
            decreases links.len() - i,
        {
            let ghost before = found@;
            assert(views(links@).subrange(0, i + 1).drop_last() =~= views(links@).subrange(0, i as int));
            match first_group("OptiFine_(.*?).jar", links[i].as_str()) {
                Some(v) => {
                    found.push(v);
                    assert(views(found@) =~= views(before).push(v@));
                },
                None => {},
            }
            i = i + 1;
        }
        assert(views(links@).subrange(0, i as int) =~= views(links@));
        let mut mc_vers: Vec<String> = Vec::new();
        assert(views(mc_vers@) =~= Seq::<Seq<char>>::empty());
        add_new_names(&mut mc_vers, names);
        let mut all_opt_vers: Vec<String> = Vec::new();
        assert(views(all_opt_vers@) =~= Seq::<Seq<char>>::empty());
        add_new_names(&mut all_opt_vers, found);
        Scraper { mc_vers, all_opt_vers }
    }

    pub fn get_mc_vers(&self) -> (r: &Vec<String>)
        ensures
            r == &self.mc_vers,
    {
        &self.mc_vers
    }

    pub fn get_all_opt_vers(&self) -> (r: &Vec<String>)
        ensures
            r == &self.all_opt_vers,
    {
        &self.all_opt_vers
    }

    /// The Optifine versions for Minecraft version `mc_ver`, in catalog order.
    pub fn get_opt_vers(&self, mc_ver: &str) -> (r: Vec<String>)
        ensures
            views(r@) == opt_vers_of(views(self.all_opt_vers@), mc_ver@),
    {
        let mut head = mc_ver.to_owned();
        append_str(&mut head, "_");
        assert(head@ == mc_ver@ + seq!['_']) by {
            reveal_strlit("_");
        }
        let ghost all = views(self.all_opt_vers@);
        let ghost pred = |v: Seq<char>| starts_with(v, mc_ver@ + seq!['_']);
        let mut out: Vec<String> = Vec::new();
        let mut i: usize = 0;
        assert(all.subrange(0, 0).filter(pred) =~= Seq::empty()) by {
            reveal(Seq::filter);
        }
        while i < self.all_opt_vers.len()
            invariant
                i <= self.all_opt_vers@.len(),
                all == views(self.all_opt_vers@),
                head@ == mc_ver@ + seq!['_'],
                pred == (|v: Seq<char>| starts_with(v, mc_ver@ + seq!['_'])),
                views(out@) == all.subrange(0, i as int).filter(pred),
            decreases self.all_opt_vers.len() - i,
        {
            let ghost before = out@;
            let v = &self.all_opt_vers[i];
            assert(all.subrange(0, i + 1) =~= all.subrange(0, i as int).push(v@));
            proof {
                all.subrange(0, i as int).lemma_filter_push(v@, pred);
            }
            if starts_with_str(v.as_str(), head.as_str()) {
                out.push(v.clone());
                assert(views(out@) =~= views(before).push(v@));
            }
            i = i + 1;
        }
        assert(all.subrange(0, i as int) =~= all);
        out
    }

    /// Whether the catalog lists Minecraft version `mc_ver`.
    pub fn test_mc_ver(&self, mc_ver: &String) -> (r: bool)
        ensures
            r == views(self.mc_vers@).contains(mc_ver@),
    {
        let r = contains_string(&self.mc_vers, mc_ver);
        proof {
            lemma_views_contains(self.mc_vers@, mc_ver@);
        }
        r
    }

    /// Whether the catalog lists Optifine version `opt_ver`.
    pub fn test_opt_ver(&self, opt_ver: &String) -> (r: bool)
        ensures
            r == views(self.all_opt_vers@).contains(opt_ver@),
    {
        let r = contains_string(&self.all_opt_vers, opt_ver);
        proof {
            lemma_views_contains(self.all_opt_vers@, opt_ver@);
        }
        r
    }
}

/// The ranges an index expression stands for against `n` variants; the empty
/// expression stands for the first variant.
pub open spec fn index_ranges(index: Seq<char>, n: nat) -> Seq<ParsedRange> {
    if index.len() == 0 {
        seq![ParsedRange::Single(1)]
    } else {
        valid_ranges(tokens(index), n)
    }
}

/// The variants at 1-based positions `ps` of `vs`, skipping positions that `vs` lacks.
pub open spec fn pick(vs: Seq<Seq<char>>, ps: Seq<usize>) -> Seq<Seq<char>>
    decreases ps.len(),
{
    if ps.len() == 0 {
        Seq::empty()
    } else {
        let r = pick(vs, ps.drop_last());
        let p = ps.last();
        if 1 <= p <= vs.len() {
            r.push(vs[p - 1])
        } else {
            r
        }
    }
}

/// The Optifine versions that one selector names against the catalog.
///
/// `mc[index]` names the variants of a listed Minecraft version `mc` at the
/// positions of `index`; a listed Optifine version names itself; a listed
/// Minecraft version alone names its first variant; anything else names none.
pub open spec fn selection(s: Seq<char>, mc: Seq<Seq<char>>, all: Seq<Seq<char>>) -> Seq<
    Seq<char>,
> {
    match destructed(s) {
        Some((base, index)) => if mc.contains(base) {
            let ov = opt_vers_of(all, base);
            pick(ov, purified(index_ranges(index, ov.len()), ov.len()))
        } else {
            Seq::empty()
        },
        None => if all.contains(s) {
            seq![s]
        } else if mc.contains(s) && opt_vers_of(all, s).len() > 0 {
            seq![opt_vers_of(all, s)[0]]
        } else {
            Seq::empty()
        },
    }
}

/// `acc` followed by those of `xs` it lacks, each once, in order.
pub open spec fn add_names(acc: Seq<Seq<char>>, xs: Seq<Seq<char>>) -> Seq<Seq<char>>
    decreases xs.len(),
{
    if xs.len() == 0 {
        acc
    } else {
        let r = add_names(acc, xs.drop_last());
        if r.contains(xs.last()) {
            r
        } else {
            r.push(xs.last())
        }
    }
}

/// The versions that `sels` name together, each once, in the order first named.
pub open spec fn resolved(sels: Seq<Seq<char>>, mc: Seq<Seq<char>>, all: Seq<Seq<char>>) -> Seq<
    Seq<char>,
>
    decreases sels.len(),
{
    if sels.len() == 0 {
        Seq::empty()
    } else {
        add_names(resolved(sels.drop_last(), mc, all), selection(sels.last(), mc, all))
    }
}

/// A selector that names nothing, or a part of one that was rejected.
#[derive(Debug, Clone, PartialEq, Eq)]
pub enum AddIssue {
    /// A rejected token of the index expression of a listed Minecraft
    /// version: the version, the token, and the reason.
    BadIndex(String, String, String),
    /// The name before the brackets is no listed Minecraft version.
    NoSuchMcVer(String),
    /// The selector is neither a listed Optifine version nor a listed
    /// Minecraft version with a variant.
    NoSuchOptVer(String),
}

/// An issue as plain values: its kind (0 for a rejected index token, 1 for an
/// unknown Minecraft version, 2 for an unknown Optifine version) and its texts.
pub open spec fn issue_view(i: AddIssue) -> (int, Seq<char>, Seq<char>, Seq<char>) {
    match i {
        AddIssue::BadIndex(mc, raw, reason) => (0, mc@, raw@, reason@),
        AddIssue::NoSuchMcVer(mc) => (1, mc@, Seq::empty(), Seq::empty()),
        AddIssue::NoSuchOptVer(v) => (2, v@, Seq::empty(), Seq::empty()),
    }
}

pub open spec fn issue_views(v: Seq<AddIssue>) -> Seq<(int, Seq<char>, Seq<char>, Seq<char>)> {
    v.map_values(|i: AddIssue| issue_view(i))
}

/// The rejected tokens of an index expression of Minecraft version `base`, as issues.
pub open spec fn bad_index_issues(base: Seq<char>, bad: Seq<(Seq<char>, Seq<char>)>) -> Seq<
    (int, Seq<char>, Seq<char>, Seq<char>),
> {
    bad.map_values(|p: (Seq<char>, Seq<char>)| (0int, base, p.0, p.1))
}

/// What one selector cannot resolve, against the catalog.
pub open spec fn selection_issues(s: Seq<char>, mc: Seq<Seq<char>>, all: Seq<Seq<char>>) -> Seq<
    (int, Seq<char>, Seq<char>, Seq<char>),
> {
    match destructed(s) {
        Some((base, index)) => if mc.contains(base) {
            if index.len() == 0 {
                Seq::empty()
            } else {
                bad_index_issues(base, rejected(tokens(index), opt_vers_of(all, base).len()))
            }
        } else {
            seq![(1int, base, Seq::<char>::empty(), Seq::<char>::empty())]
        },
        None => if all.contains(s) || (mc.contains(s) && opt_vers_of(all, s).len() > 0) {
            Seq::empty()
        } else {
            seq![(2int, s, Seq::<char>::empty(), Seq::<char>::empty())]
        },
    }
}

/// What `sels` cannot resolve, selector by selector.
pub open spec fn all_issues(sels: Seq<Seq<char>>, mc: Seq<Seq<char>>, all: Seq<Seq<char>>) -> Seq<
    (int, Seq<char>, Seq<char>, Seq<char>),
>
    decreases sels.len(),
{
    if sels.len() == 0 {
        Seq::empty()
    } else {
        all_issues(sels.drop_last(), mc, all) + selection_issues(sels.last(), mc, all)
    }
}

/// What a list of selectors comes to.
pub struct Resolution {
    /// The versions to fetch, each once, in the order first named.
    pub to_download: Vec<String>,
    /// What could not be resolved, in order.
    pub issues: Vec<AddIssue>,
}

/// The variants of `vs` that `index` names, and the rejected tokens of `index`.
fn pick_positions(vs: &Vec<String>, index: &str) -> (r: (Vec<String>, Vec<(String, String)>))
    ensures
        views(r.0@) == pick(views(vs@), purified(index_ranges(index@, vs@.len()), vs@.len())),
        index@.len() == 0 ==> r.1@.len() == 0,
        index@.len() > 0 ==> pair_views(r.1@) == rejected(tokens(index@), vs@.len()),
{
    let n = vs.len();
    let (valid, invalid) = parse(index, n);
    let set = purify(valid, n);
    let ps = set_to_vec(&set);
    let ghost vv = views(vs@);
    let mut out: Vec<String> = Vec::new();
    let mut i: usize = 0;
    while i < ps.len()
        invariant
            i <= ps@.len(),
            n == vs@.len(),
            vv == views(vs@),
            views(out@) == pick(vv, ps@.subrange(0, i as int)),
        decreases ps.len() - i,
    {
        let ghost before = out@;
        assert(ps@.subrange(0, i + 1).drop_last() =~= ps@.subrange(0, i as int));
        let p = ps[i];
        if 1 <= p && p <= n {
            out.push(vs[p - 1].clone());
            assert(views(out@) =~= views(before).push(vv[p - 1]));
        }
        i = i + 1;
    }
    assert(ps@.subrange(0, i as int) =~= ps@);
    (out, invalid)
}

/// Appends to `acc` those of `xs` it lacks, each once.
fn add_new_names(acc: &mut Vec<String>, xs: Vec<String>)
    ensures
        views(final(acc)@) == add_names(views(old(acc)@), views(xs@)),
{
    let ghost start = views(acc@);
    let mut i: usize = 0;
    while i < xs.len()
        invariant
            i <= xs@.len(),
            views(acc@) == add_names(start, views(xs@.subrange(0, i as int))),
        decreases xs.len() - i,
    {
        let ghost before = acc@;
        assert(views(xs@.subrange(0, i + 1)) =~= views(xs@.subrange(0, i as int)).push(xs@[i as int]@));
        assert(views(xs@.subrange(0, i + 1)).drop_last() =~= views(xs@.subrange(0, i as int)));
        let seen = contains_string(acc, &xs[i]);
        proof {
            lemma_views_contains(before, xs@[i as int]@);
        }
        if !seen {
            acc.push(xs[i].clone());
            assert(views(acc@) =~= views(before).push(xs@[i as int]@));
        }
        i = i + 1;
    }
    assert(xs@.subrange(0, i as int) =~= xs@);
}

/// Resolves each selector against the catalog and gathers the versions they
/// name, each once, in the order first named, with what could not be resolved.
pub fn resolve_versions(scrap: &Scraper, versions: &Vec<String>) -> (r: Resolution)
    ensures
        views(r.to_download@) == resolved(
            views(versions@),
            views(scrap.mc_vers@),
            views(scrap.all_opt_vers@),
        ),
        issue_views(r.issues@) == all_issues(
            views(versions@),
            views(scrap.mc_vers@),
            views(scrap.all_opt_vers@),
        ),
{
    let ghost mc = views(scrap.mc_vers@);
    let ghost all = views(scrap.all_opt_vers@);
    let mut out: Vec<String> = Vec::new();
    let mut issues: Vec<AddIssue> = Vec::new();
    let mut i: usize = 0;
    while i < versions.len()
        invariant
            i <= versions@.len(),
            mc == views(scrap.mc_vers@),
            all == views(scrap.all_opt_vers@),
            views(out@) == resolved(views(versions@.subrange(0, i as int)), mc, all),
            issue_views(issues@) == all_issues(views(versions@.subrange(0, i as int)), mc, all),
        decreases versions.len() - i,
    {
        let ghost issues0 = issue_views(issues@);
        let sel = &versions[i];
        let ghost sels = views(versions@.subrange(0, i + 1));
        assert(sels.drop_last() =~= views(versions@.subrange(0, i as int)));
        assert(sels.last() == sel@);
        let mut picks: Vec<String> = Vec::new();
        match destruct_input(sel.as_str()) {
            Some((mc_ver, index)) => {
                if scrap.test_mc_ver(&mc_ver) {
                    let ov = scrap.get_opt_vers(mc_ver.as_str());
                    let (found, bad) = pick_positions(&ov, index.as_str());
                    picks = found;
                    let ghost bv = bad_index_issues(mc_ver@, pair_views(bad@));
                    let mut j: usize = 0;
                    while j < bad.len()
                        invariant
                            j <= bad@.len(),
                            bv == bad_index_issues(mc_ver@, pair_views(bad@)),
                            issue_views(issues@) == issues0 + bv.subrange(0, j as int),
                        decreases bad.len() - j,
                    {
                        let ghost before = issues@;
                        let item = AddIssue::BadIndex(
                            mc_ver.clone(),
                            bad[j].0.clone(),
                            bad[j].1.clone(),
                        );
                        issues.push(item);
                        assert(issue_views(issues@) =~= issue_views(before).push(issue_view(item)));
                        assert(bv.subrange(0, j + 1) =~= bv.subrange(0, j as int).push(bv[j as int]));
                        assert(issues0 + bv.subrange(0, j + 1) =~= (issues0 + bv.subrange(0, j as int)).push(bv[j as int]));
                        j = j + 1;
                    }
                    assert(bv.subrange(0, j as int) =~= bv);
                    proof {
                        if index@.len() == 0 {
                            assert(bv =~= Seq::empty());
                        }
                    }
                } else {
                    let ghost m = mc_ver@;
                    issues.push(AddIssue::NoSuchMcVer(mc_ver));
                    assert(issue_views(issues@) =~= issues0 + seq![(1int, m, Seq::<char>::empty(), Seq::<char>::empty())]);
                }
            },
            None => {
                if scrap.test_opt_ver(sel) {
                    picks.push(sel.clone());
                    assert(views(picks@) =~= seq![sel@]);
                } else if scrap.test_mc_ver(sel) {
                    let ov = scrap.get_opt_vers(sel.as_str());
                    if ov.len() > 0 {
                        picks.push(ov[0].clone());
                        assert(views(picks@) =~= seq![views(ov@)[0]]);
                    } else {
                        issues.push(AddIssue::NoSuchOptVer(sel.clone()));
                        assert(issue_views(issues@) =~= issues0 + seq![(2int, sel@, Seq::<char>::empty(), Seq::<char>::empty())]);
                    }
                } else {
                    issues.push(AddIssue::NoSuchOptVer(sel.clone()));
                    assert(issue_views(issues@) =~= issues0 + seq![(2int, sel@, Seq::<char>::empty(), Seq::<char>::empty())]);
                }
            },
        }
        assert(views(picks@) == selection(sel@, mc, all));
        assert(issue_views(issues@) =~= issues0 + selection_issues(sel@, mc, all));
        add_new_names(&mut out, picks);
        i = i + 1;
    }
    assert(versions@.subrange(0, i as int) =~= versions@);
    Resolution { to_download: out, issues }
}

/// The address of the page that offers the file of Optifine version `v`;
/// preview versions (named with `pre`) live under a `preview_` file name.
pub open spec fn download_page_spec(v: Seq<char>) -> Seq<char> {
    "https://optifine.net/adloadx?f="@ + (if has_infix(v, "pre"@) {
        "preview_"@
    } else {
        ""@
    }) + "OptiFine_"@ + v + ".jar"@
}

/// The address of the page that offers the file of Optifine version `opt_ver`.
pub fn download_page_url(opt_ver: &str) -> (r: String)
    ensures
        r@ == download_page_spec(opt_ver@),
{
    let mut url = "https://optifine.net/adloadx?f=".to_owned();
    if contains_str(opt_ver, "pre") {
        append_str(&mut url, "preview_");
    } else {
        append_str(&mut url, "");
    }
    append_str(&mut url, "OptiFine_");
    append_str(&mut url, opt_ver);
    append_str(&mut url, ".jar");
    url
}

/// The address of a file stream from the link target on its download page.
pub fn stream_url(href: &str) -> (r: String)
    ensures
        r@ == "https://optifine.net/"@ + href@,
{
    let mut url = "https://optifine.net/".to_owned();
    append_str(&mut url, href);
    url
}

} // verus!
