//! The tag index: lookup tables over a page store.
//!
//! The index wraps a store and keeps three tables in step with it: which
//! pages carry each tag, which tags each page carries, and each page's
//! title.  Reads answer ordered tag-intersection queries from the tables
//! alone; writes go to the store first and touch the tables only once the
//! store has succeeded, so a failed persist never corrupts the index.

use vstd::prelude::*;

use crate::page::store::StoreError;
use crate::page::store::StoreMut;
use crate::page::PageView;
use crate::page::Parsed;
use crate::strmap::StrMap;
use crate::strmap::StrSet;
use vstd::string::StringExecFns;

verus! {

/// What the index knows of one page.
pub struct PageMeta {
    pub tags: Set<Seq<char>>,
    pub title: Seq<char>,
}

/// The index-relevant part of a page.
pub open spec fn meta_of(pv: PageView) -> PageMeta {
    PageMeta { tags: pv.tags, title: pv.title }
}

/// The pages carrying tag `t`.
pub open spec fn ids_with_tag(m: Map<Seq<char>, PageMeta>, t: Seq<char>) -> Set<Seq<char>> {
    Set::new(|id: Seq<char>| m.contains_key(id) && m[id].tags.contains(t))
}

/// Basic page info.
#[derive(Debug)]
pub struct PageInfo {
    pub id: String,
    pub title: String,
}

impl Clone for PageInfo {
    fn clone(&self) -> (r: Self)
        ensures
            r == *self,
    {
        PageInfo { id: self.id.clone(), title: self.title.clone() }
    }
}

/// Results of a tag query lookup: the matching pages, and how much of the
/// query was consumed.
#[derive(Debug)]
pub struct FindResults {
    pub matching_pages: Vec<PageInfo>,
    pub matching_tags: Vec<String>,
}

/// A post-processed `FindResults`: the refinement tags with their page
/// counts, and the pages no refinement tag reaches.
#[derive(Debug)]
pub struct CompactResults {
    pub tags: Vec<(String, usize)>,
    pub pages: Vec<PageInfo>,
}

/// The ids of a page list.
pub open spec fn info_ids(infos: Seq<PageInfo>) -> Seq<Seq<char>> {
    infos.map_values(|i: PageInfo| i.id@)
}

/// A page list that reports `ids` out of `m`: each id exactly once, each
/// with its indexed title.
pub open spec fn infos_ok(
    infos: Seq<PageInfo>,
    ids: Set<Seq<char>>,
    m: Map<Seq<char>, PageMeta>,
) -> bool {
    &&& info_ids(infos).no_duplicates()
    &&& info_ids(infos).to_set() == ids
    &&& forall|i: int|
        0 <= i < infos.len() ==> m.contains_key(#[trigger] infos[i].id@) && infos[i].title@
            == m[infos[i].id@].title
}

/// What a tag query yields: the matching page ids and the consumed prefix
/// of the query.
pub struct FindOutcome {
    pub ids: Set<Seq<char>>,
    pub consumed: Seq<Seq<char>>,
}

/// The rest of a tag query folded over a running candidate set.  A tag
/// already consumed is skipped; a tag whose intersection with the candidates
/// would be empty — in particular an unknown tag — stops the walk, returning
/// what was accumulated.
pub open spec fn find_rec(
    m: Map<Seq<char>, PageMeta>,
    tags: Seq<Seq<char>>,
    cur: Set<Seq<char>>,
    consumed: Seq<Seq<char>>,
) -> FindOutcome
    decreases tags.len(),
{
    if tags.len() == 0 {
        FindOutcome { ids: cur, consumed }
    } else {
        let t = tags[0];
        if consumed.contains(t) {
            find_rec(m, tags.drop_first(), cur, consumed)
        } else {
            let inter = cur.intersect(ids_with_tag(m, t));
            if exists|x: Seq<char>| inter.contains(x) {
                find_rec(m, tags.drop_first(), inter, consumed.push(t))
            } else {
                FindOutcome { ids: cur, consumed }
            }
        }
    }
}

/// What a whole tag query yields over `m`: every page for the empty query;
/// nothing, with nothing consumed, when the first tag is unknown; otherwise
/// the left-to-right intersection walk from the first tag's pages.
pub open spec fn find_spec(m: Map<Seq<char>, PageMeta>, tags: Seq<Seq<char>>) -> FindOutcome {
    if tags.len() == 0 {
        FindOutcome { ids: m.dom(), consumed: Seq::empty() }
    } else {
        let s0 = ids_with_tag(m, tags[0]);
        if exists|x: Seq<char>| s0.contains(x) {
            find_rec(m, tags.drop_first(), s0, seq![tags[0]])
        } else {
            FindOutcome { ids: Set::empty(), consumed: Seq::empty() }
        }
    }
}

/// An empty tag query matches every known page and consumes nothing.
pub proof fn lemma_find_empty_query(m: Map<Seq<char>, PageMeta>)
    ensures
        find_spec(m, Seq::empty()).ids == m.dom(),
        find_spec(m, Seq::empty()).consumed == Seq::<Seq<char>>::empty(),
{
}

/// A query whose first tag no page carries matches nothing, with nothing
/// consumed.
pub proof fn lemma_find_unknown_first(m: Map<Seq<char>, PageMeta>, tags: Seq<Seq<char>>)
    requires
        tags.len() > 0,
        forall|x: Seq<char>| !ids_with_tag(m, tags[0]).contains(x),
    ensures
        find_spec(m, tags).ids =~= Set::<Seq<char>>::empty(),
        find_spec(m, tags).consumed == Seq::<Seq<char>>::empty(),
{
}

/// A two-tag query whose tags share a page matches exactly the intersection
/// of their page sets, with both tags consumed.
pub proof fn lemma_find_intersection(m: Map<Seq<char>, PageMeta>, a: Seq<char>, b: Seq<char>)
    requires
        a != b,
        exists|x: Seq<char>|
            ids_with_tag(m, a).intersect(ids_with_tag(m, b)).contains(x),
    ensures
        find_spec(m, seq![a, b]).ids == ids_with_tag(m, a).intersect(ids_with_tag(m, b)),
        find_spec(m, seq![a, b]).consumed =~= seq![a, b],
{
    let tags = seq![a, b];
    let x = choose|x: Seq<char>|
        ids_with_tag(m, a).intersect(ids_with_tag(m, b)).contains(x);
    assert(ids_with_tag(m, a).contains(x));
    let s0 = ids_with_tag(m, a);
    assert(tags.drop_first() =~= seq![b]);
    let c1 = seq![a];
    assert(!c1.contains(b)) by {
        if c1.contains(b) {
            assert(c1[0] == b);
        }
    }
    assert(seq![b].drop_first() =~= Seq::<Seq<char>>::empty());
    let inter = s0.intersect(ids_with_tag(m, b));
    assert(find_rec(m, seq![b], s0, c1) == find_rec(
        m,
        Seq::<Seq<char>>::empty(),
        inter,
        c1.push(b),
    ));
    assert(c1.push(b) =~= seq![a, b]);
}

/// A two-tag query whose second tag no page carries stops after the first:
/// the first tag's pages come back, with only it consumed.
pub proof fn lemma_find_unknown_later(m: Map<Seq<char>, PageMeta>, a: Seq<char>, z: Seq<char>)
    requires
        a != z,
        exists|x: Seq<char>| ids_with_tag(m, a).contains(x),
        forall|x: Seq<char>| !ids_with_tag(m, z).contains(x),
    ensures
        find_spec(m, seq![a, z]).ids == ids_with_tag(m, a),
        find_spec(m, seq![a, z]).consumed =~= seq![a],
{
    let tags = seq![a, z];
    let s0 = ids_with_tag(m, a);
    assert(tags.drop_first() =~= seq![z]);
    let c1 = seq![a];
    assert(!c1.contains(z)) by {
        if c1.contains(z) {
            assert(c1[0] == z);
        }
    }
    assert forall|x: Seq<char>| !s0.intersect(ids_with_tag(m, z)).contains(x) by {}
    assert(find_rec(m, seq![z], s0, c1) == FindOutcome { ids: s0, consumed: c1 });
}

/// Writing the same page twice is idempotent on the index tables: `put`
/// maps the tables to `metas().insert(id, meta)`, and inserting the same
/// entry again changes nothing.
pub proof fn lemma_put_idempotent(m: Map<Seq<char>, PageMeta>, id: Seq<char>, meta: PageMeta)
    ensures
        m.insert(id, meta).insert(id, meta) == m.insert(id, meta),
{
    assert(m.insert(id, meta).insert(id, meta) =~= m.insert(id, meta));
}

/// After a delete, the removed id is absent from every tag's page set.
pub proof fn lemma_delete_clears_tags(m: Map<Seq<char>, PageMeta>, id: Seq<char>, t: Seq<char>)
    ensures
        !ids_with_tag(m.remove(id), t).contains(id),
{
}

/// Whether `v` holds a string spelling `s`.
fn vec_contains_string(v: &Vec<String>, s: &String) -> (r: bool)
    ensures
        r == v.deep_view().contains(s@),
{
    let mut i: usize = 0;
    while i < v.len()
        invariant
            i <= v@.len(),
            forall|j: int| 0 <= j < i ==> v.deep_view()[j] != s@,
        decreases v@.len() - i,
    {
        if s.eq(&v[i]) {
            assert(v.deep_view()[i as int] == s@);
            return true;
        }
        i += 1;
    }
    false
}

/// Keeps the pages of `cur` whose id is in `keep`.
fn filter_infos(cur: &Vec<PageInfo>, keep: &StrSet) -> (r: Vec<PageInfo>)
    requires
        info_ids(cur@).no_duplicates(),
    ensures
        info_ids(r@).no_duplicates(),
        info_ids(r@).to_set() =~= info_ids(cur@).to_set().intersect(keep@),
        forall|i: int| 0 <= i < r@.len() ==> cur@.contains(#[trigger] r@[i]),
{
    let mut r: Vec<PageInfo> = Vec::new();
    let mut i: usize = 0;
    while i < cur.len()
        invariant
            i <= cur@.len(),
            info_ids(cur@).no_duplicates(),
            info_ids(r@).no_duplicates(),
            forall|x: Seq<char>|
                #[trigger] info_ids(r@).to_set().contains(x) == ((exists|j: int|
                    0 <= j < i && info_ids(cur@)[j] == x) && keep@.contains(x)),
            forall|i2: int| 0 <= i2 < r@.len() ==> cur@.contains(#[trigger] r@[i2]),
        decreases cur@.len() - i,
    {
        let ghost r0 = r@;
        let kept = keep.contains(&cur[i].id);
        if kept {
            let x = cur[i].clone();
            r.push(x);
            proof {
                assert(cur@[i as int] == r@[r@.len() - 1]);
                assert(cur@.contains(r@[r@.len() - 1]));
                assert(info_ids(r@) =~= info_ids(r0).push(cur@[i as int].id@));
                assert(info_ids(r@).no_duplicates()) by {
                    if info_ids(r0).to_set().contains(cur@[i as int].id@) {
                        let j = choose|j: int|
                            0 <= j < i && info_ids(cur@)[j] == cur@[i as int].id@;
                        assert(info_ids(cur@)[j] == info_ids(cur@)[i as int]);
                        assert(false);
                    }
                }
            }
        }
        i += 1;
        proof {
            assert forall|x: Seq<char>|
                #[trigger] info_ids(r@).to_set().contains(x) == ((exists|j: int|
                    0 <= j < i && info_ids(cur@)[j] == x) && keep@.contains(x)) by {
                if info_ids(r@).to_set().contains(x) {
                    let i2 = choose|i2: int|
                        0 <= i2 < info_ids(r@).len() && info_ids(r@)[i2] == x;
                    if kept && i2 == info_ids(r@).len() - 1 {
                        assert(x == cur@[i - 1].id@);
                        assert(info_ids(cur@)[i - 1] == x);
                        assert(keep@.contains(x));
                    } else {
                        assert(info_ids(r0)[i2] == x);
                        assert(info_ids(r0).to_set().contains(x));
                        let j = choose|j: int| 0 <= j < i - 1 && info_ids(cur@)[j] == x;
                        assert(keep@.contains(x));
                    }
                } else {
                    if (exists|j: int| 0 <= j < i && info_ids(cur@)[j] == x) && keep@.contains(
                        x,
                    ) {
                        let j = choose|j: int| 0 <= j < i && info_ids(cur@)[j] == x;
                        if j < i - 1 {
                            assert(info_ids(r0).to_set().contains(x));
                            let i2 = choose|i2: int|
                                0 <= i2 < info_ids(r0).len() && info_ids(r0)[i2] == x;
                            if kept {
                                assert(info_ids(r@)[i2] == x);
                            } else {
                                assert(info_ids(r@)[i2] == x);
                            }
                            assert(info_ids(r@).to_set().contains(x));
                        } else {
                            assert(x == cur@[i - 1].id@);
                            assert(kept);
                            assert(info_ids(r@)[info_ids(r@).len() - 1] == x);
                            assert(info_ids(r@).to_set().contains(x));
                        }
                        assert(false);
                    }
                }
            }
        }
    }
    proof {
        assert(info_ids(r@).to_set() =~= info_ids(cur@).to_set().intersect(keep@)) by {
            assert forall|x: Seq<char>| info_ids(cur@).to_set().intersect(keep@).contains(
                x,
            ) implies info_ids(r@).to_set().contains(x) by {
                let j = choose|j: int|
                    0 <= j < info_ids(cur@).len() && info_ids(cur@)[j] == x;
            }
            assert forall|x: Seq<char>| info_ids(r@).to_set().contains(x) implies info_ids(
                cur@,
            ).to_set().intersect(keep@).contains(x) by {
                let j = choose|j: int| 0 <= j < cur@.len() && info_ids(cur@)[j] == x;
                assert(info_ids(cur@).to_set().contains(x));
            }
        }
    }
    r
}

/// The matched pages that carry tag `t`.
pub open spec fn carriers(
    m: Map<Seq<char>, PageMeta>,
    matched: Set<Seq<char>>,
    t: Seq<char>,
) -> Set<Seq<char>> {
    Set::new(|id: Seq<char>| matched.contains(id) && m.contains_key(id) && m[id].tags.contains(t))
}

/// A refinement tag: carried by some matched page but not already part of
/// the query.
pub open spec fn leftover_tag(
    m: Map<Seq<char>, PageMeta>,
    matched: Set<Seq<char>>,
    q: Set<Seq<char>>,
    t: Seq<char>,
) -> bool {
    !q.contains(t) && exists|id: Seq<char>| carriers(m, matched, t).contains(id)
}

/// The display order of refinement tags: by page count, largest first, then
/// by name.
pub open spec fn tag_before(n1: Seq<char>, c1: int, n2: Seq<char>, c2: int) -> bool {
    c1 > c2 || (c1 == c2 && crate::text::lex_lt(n1, n2))
}

/// The names of a tag-count list.
pub open spec fn entry_names(es: Seq<(String, usize)>) -> Seq<Seq<char>> {
    es.map_values(|e: (String, usize)| e.0@)
}

/// Exec mirror of `tag_before`.
fn tag_before_exec(a: &(String, usize), b: &(String, usize)) -> (r: bool)
    ensures
        r == tag_before(a.0@, a.1 as int, b.0@, b.1 as int),
{
    if a.1 > b.1 {
        true
    } else if a.1 == b.1 {
        lex_lt_exec(&a.0, &b.0)
    } else {
        false
    }
}

/// Whether `a` orders strictly before `b` by code points.
fn lex_lt_exec(a: &String, b: &String) -> (r: bool)
    ensures
        r == crate::text::lex_lt(a@, b@),
{
    let av = crate::text::chars_of(a.as_str());
    let bv = crate::text::chars_of(b.as_str());
    let mut i: usize = 0;
    proof {
        assert(a@.skip(0) =~= a@);
        assert(b@.skip(0) =~= b@);
    }
    loop
        invariant
            av@ == a@,
            bv@ == b@,
            i <= av@.len(),
            i <= bv@.len(),
            forall|j: int| 0 <= j < i ==> av@[j] == bv@[j],
            crate::text::lex_lt(a@, b@) == crate::text::lex_lt(
                a@.skip(i as int),
                b@.skip(i as int),
            ),
        decreases av@.len() - i,
    {
        let ghost asuf = a@.skip(i as int);
        let ghost bsuf = b@.skip(i as int);
        if i >= bv.len() {
            proof {
                assert(bsuf.len() == 0);
            }
            return false;
        }
        if i >= av.len() {
            proof {
                assert(asuf.len() == 0 && bsuf.len() > 0);
            }
            return true;
        }
        let ca = av[i];
        let cb = bv[i];
        proof {
            assert(asuf[0] == ca && bsuf[0] == cb);
        }
        if (ca as u32) < (cb as u32) {
            return true;
        }
        if ca != cb {
            proof {
                assert(!crate::text::lex_lt(asuf, bsuf));
            }
            return false;
        }
        i += 1;
        proof {
            assert(asuf.drop_first() =~= a@.skip(i as int));
            assert(bsuf.drop_first() =~= b@.skip(i as int));
        }
    }
}

/// Inserts each tag entry at its place; names must be distinct, and the
/// result is strictly ordered, so it is the one ordering of the input.
fn sort_tag_entries(v: Vec<(String, usize)>) -> (r: Vec<(String, usize)>)
    requires
        entry_names(v@).no_duplicates(),
    ensures
        r@.len() == v@.len(),
        forall|x: (String, usize)| r@.contains(x) == v@.contains(x),
        forall|k1: int, k2: int|
            0 <= k1 < k2 < r@.len() ==> tag_before(
                #[trigger] r@[k1].0@,
                r@[k1].1 as int,
                #[trigger] r@[k2].0@,
                r@[k2].1 as int,
            ),
{
    let mut out: Vec<(String, usize)> = Vec::new();
    let mut i: usize = 0;
    while i < v.len()
        invariant
            i <= v@.len(),
            entry_names(v@).no_duplicates(),
            out@.len() == i,
            forall|k: int|
                0 <= k < out@.len() ==> exists|j: int| 0 <= j < i && v@[j] == #[trigger] out@[k],
            forall|j: int| 0 <= j < i ==> out@.contains(#[trigger] v@[j]),
            forall|k1: int, k2: int|
                0 <= k1 < k2 < out@.len() ==> tag_before(
                    #[trigger] out@[k1].0@,
                    out@[k1].1 as int,
                    #[trigger] out@[k2].0@,
                    out@[k2].1 as int,
                ),
        decreases v@.len() - i,
    {
        let x = (v[i].0.clone(), v[i].1);
        proof {
            assert(x.0@ == v@[i as int].0@ && x.1 == v@[i as int].1);
        }
        let mut p: usize = 0;
        while p < out.len() && tag_before_exec(&out[p], &x)
            invariant
                p <= out@.len(),
                forall|k: int|
                    0 <= k < p ==> tag_before(
                        #[trigger] out@[k].0@,
                        out@[k].1 as int,
                        x.0@,
                        x.1 as int,
                    ),
            decreases out@.len() - p,
        {
            p += 1;
        }
        proof {
            assert forall|k: int| p <= k < out@.len() implies tag_before(
                x.0@,
                x.1 as int,
                #[trigger] out@[k].0@,
                out@[k].1 as int,
            ) by {
                assert(!tag_before(out@[p as int].0@, out@[p as int].1 as int, x.0@, x.1 as int));
                let j = choose|j: int| 0 <= j < i && v@[j] == out@[p as int];
                assert(entry_names(v@)[j] == out@[p as int].0@);
                assert(entry_names(v@)[i as int] == x.0@);
                assert(out@[p as int].0@ != x.0@);
                crate::text::lemma_lex_total(x.0@, out@[p as int].0@);
                assert(tag_before(x.0@, x.1 as int, out@[p as int].0@, out@[p as int].1 as int));
                if k > p {
                    let j2 = choose|j2: int| 0 <= j2 < i && v@[j2] == out@[k];
                    assert(entry_names(v@)[j2] == out@[k].0@);
                    if x.0@ == out@[k].0@ {
                        assert(false);
                    }
                    if out@[p as int].1 == out@[k].1 && x.1 == out@[p as int].1 {
                        crate::text::lemma_lex_trans(x.0@, out@[p as int].0@, out@[k].0@);
                    } else {
                        crate::text::lemma_lex_total(x.0@, out@[k].0@);
                        if !tag_before(x.0@, x.1 as int, out@[k].0@, out@[k].1 as int) {
                            assert(out@[k].1 >= x.1);
                            assert(false);
                        }
                    }
                }
            }
        }
        let ghost out0 = out@;
        out.insert(p, x);
        i += 1;
        proof {
            assert(out@ =~= out0.insert(p as int, x));
            out0.insert_ensures(p as int, x);
            assert forall|k: int| 0 <= k < out@.len() implies exists|j: int|
                0 <= j < i && v@[j] == #[trigger] out@[k] by {
                if k < p {
                    assert(out@[k] == out0[k]);
                } else if k == p {
                    assert(out@[k] == x);
                    assert(v@[i - 1] == x);
                } else {
                    assert(out@[k] == out0[k - 1]);
                }
            }
            assert forall|j: int| 0 <= j < i implies out@.contains(#[trigger] v@[j]) by {
                if j < i - 1 {
                    let k = choose|k: int| 0 <= k < out0.len() && out0[k] == v@[j];
                    if k < p {
                        assert(out@[k] == v@[j]);
                    } else {
                        assert(out@[k + 1] == v@[j]);
                    }
                } else {
                    assert(out@[p as int] == v@[j]);
                }
            }
            assert forall|k1: int, k2: int| 0 <= k1 < k2 < out@.len() implies tag_before(
                #[trigger] out@[k1].0@,
                out@[k1].1 as int,
                #[trigger] out@[k2].0@,
                out@[k2].1 as int,
            ) by {
                if k2 < p {
                } else if k1 > p {
                    assert(out@[k1] == out0[k1 - 1] && out@[k2] == out0[k2 - 1]);
                } else if k1 < p && k2 == p {
                    assert(out@[k1] == out0[k1] && out@[k2] == x);
                } else if k1 == p {
                    assert(out@[k1] == x && out@[k2] == out0[k2 - 1]);
                } else {
                    assert(out@[k1] == out0[k1] && out@[k2] == out0[k2 - 1]);
                }
            }
        }
    }
    proof {
        assert forall|x: (String, usize)| out@.contains(x) == v@.contains(x) by {
            if out@.contains(x) {
                let k = choose|k: int| 0 <= k < out@.len() && out@[k] == x;
                let j = choose|j: int| 0 <= j < i && v@[j] == x;
            }
            if v@.contains(x) {
                let j = choose|j: int| 0 <= j < v@.len() && v@[j] == x;
            }
        }
    }
    out
}

/// Inserts each page at its place in title order; pages with equal titles
/// stay together in some order.
fn sort_infos(v: Vec<PageInfo>) -> (r: Vec<PageInfo>)
    requires
        info_ids(v@).no_duplicates(),
    ensures
        r@.len() == v@.len(),
        forall|x: PageInfo| r@.contains(x) == v@.contains(x),
        forall|k1: int, k2: int|
            0 <= k1 < k2 < r@.len() ==> #[trigger] r@[k1].id@ != #[trigger] r@[k2].id@,
        forall|k1: int, k2: int|
            0 <= k1 < k2 < r@.len() ==> crate::text::lex_lt(
                #[trigger] r@[k1].title@,
                #[trigger] r@[k2].title@,
            ) || r@[k1].title@ == r@[k2].title@,
{
    let mut out: Vec<PageInfo> = Vec::new();
    let mut i: usize = 0;
    while i < v.len()
        invariant
            i <= v@.len(),
            info_ids(v@).no_duplicates(),
            out@.len() == i,
            forall|k: int|
                0 <= k < out@.len() ==> exists|j: int| 0 <= j < i && v@[j] == #[trigger] out@[k],
            forall|j: int| 0 <= j < i ==> out@.contains(#[trigger] v@[j]),
            forall|k1: int, k2: int|
                0 <= k1 < k2 < out@.len() ==> #[trigger] out@[k1].id@ != #[trigger] out@[k2].id@,
            forall|k1: int, k2: int|
                0 <= k1 < k2 < out@.len() ==> crate::text::lex_lt(
                    #[trigger] out@[k1].title@,
                    #[trigger] out@[k2].title@,
                ) || out@[k1].title@ == out@[k2].title@,
        decreases v@.len() - i,
    {
        let x = v[i].clone();
        proof {
            assert(x == v@[i as int]);
        }
        let mut p: usize = 0;
        while p < out.len() && lex_lt_exec(&out[p].title, &x.title)
            invariant
                p <= out@.len(),
                forall|k: int|
                    0 <= k < p ==> crate::text::lex_lt(#[trigger] out@[k].title@, x.title@),
            decreases out@.len() - p,
        {
            p += 1;
        }
        proof {
            if p < out@.len() {
                crate::text::lemma_lex_total(x.title@, out@[p as int].title@);
            }
            assert forall|k: int| p <= k < out@.len() implies crate::text::lex_lt(
                x.title@,
                #[trigger] out@[k].title@,
            ) || x.title@ == out@[k].title@ by {
                if k > p {
                    if crate::text::lex_lt(x.title@, out@[p as int].title@) {
                        if crate::text::lex_lt(out@[p as int].title@, out@[k].title@) {
                            crate::text::lemma_lex_trans(
                                x.title@,
                                out@[p as int].title@,
                                out@[k].title@,
                            );
                        }
                    }
                }
            }
            assert forall|k: int| 0 <= k < out@.len() implies out@[k].id@ != x.id@ by {
                let j = choose|j: int| 0 <= j < i && v@[j] == out@[k];
                assert(info_ids(v@)[j] == out@[k].id@);
                assert(info_ids(v@)[i as int] == x.id@);
            }
        }
        let ghost out0 = out@;
        out.insert(p, x);
        i += 1;
        proof {
            assert(out@ =~= out0.insert(p as int, x));
            out0.insert_ensures(p as int, x);
            assert forall|k: int| 0 <= k < out@.len() implies exists|j: int|
                0 <= j < i && v@[j] == #[trigger] out@[k] by {
                if k < p {
                    assert(out@[k] == out0[k]);
                } else if k == p {
                    assert(out@[k] == x);
                    assert(v@[i - 1] == x);
                } else {
                    assert(out@[k] == out0[k - 1]);
                }
            }
            assert forall|j: int| 0 <= j < i implies out@.contains(#[trigger] v@[j]) by {
                if j < i - 1 {
                    let k = choose|k: int| 0 <= k < out0.len() && out0[k] == v@[j];
                    if k < p {
                        assert(out@[k] == v@[j]);
                    } else {
                        assert(out@[k + 1] == v@[j]);
                    }
                } else {
                    assert(out@[p as int] == v@[j]);
                }
            }
            assert forall|k1: int, k2: int| 0 <= k1 < k2 < out@.len() implies #[trigger] out@[k1].id@
                != #[trigger] out@[k2].id@ by {
                if k2 < p {
                } else if k1 > p {
                    assert(out@[k1] == out0[k1 - 1] && out@[k2] == out0[k2 - 1]);
                } else if k1 < p && k2 == p {
                    assert(out@[k1] == out0[k1] && out@[k2] == x);
                } else if k1 == p {
                    assert(out@[k1] == x && out@[k2] == out0[k2 - 1]);
                } else {
                    assert(out@[k1] == out0[k1] && out@[k2] == out0[k2 - 1]);
                }
            }
            assert forall|k1: int, k2: int| 0 <= k1 < k2 < out@.len() implies crate::text::lex_lt(
                #[trigger] out@[k1].title@,
                #[trigger] out@[k2].title@,
            ) || out@[k1].title@ == out@[k2].title@ by {
                if k2 < p {
                } else if k1 > p {
                    assert(out@[k1] == out0[k1 - 1] && out@[k2] == out0[k2 - 1]);
                } else if k1 < p && k2 == p {
                    assert(out@[k1] == out0[k1] && out@[k2] == x);
                } else if k1 == p {
                    assert(out@[k1] == x && out@[k2] == out0[k2 - 1]);
                } else {
                    assert(out@[k1] == out0[k1] && out@[k2] == out0[k2 - 1]);
                }
            }
        }
    }
    proof {
        assert forall|x: PageInfo| out@.contains(x) == v@.contains(x) by {
            if out@.contains(x) {
                let k = choose|k: int| 0 <= k < out@.len() && out@[k] == x;
                let j = choose|j: int| 0 <= j < i && v@[j] == x;
            }
            if v@.contains(x) {
                let j = choose|j: int| 0 <= j < v@.len() && v@[j] == x;
            }
        }
    }
    out
}

/// Indexing wrapper over a page store: keeps track of the page data needed
/// to look pages up by a tag query.
pub struct Index<T> {
    page_ids_by_tag: StrMap<StrSet>,
    tags_by_page_id: StrMap<StrSet>,
    title_by_page_id: StrMap<String>,
    store: T,
}

impl<T: StoreMut> Index<T> {
    /// What the tables say of each page.
    pub closed spec fn metas(&self) -> Map<Seq<char>, PageMeta> {
        Map::new(
            |id: Seq<char>| self.tags_by_page_id@.contains_key(id),
            |id: Seq<char>|
                PageMeta {
                    tags: self.tags_by_page_id@[id]@,
                    title: self.title_by_page_id@[id]@,
                },
        )
    }

    /// The wrapped store's content.
    pub closed spec fn pages(&self) -> Map<Seq<char>, PageView> {
        self.store.pages()
    }

    /// The tables alone, in shape: distinct keys everywhere, the two
    /// per-page tables over the same pages, and the per-tag table exactly
    /// the inverse of the per-page one, with no empty entries.
    closed spec fn tables_wf(&self) -> bool {
        &&& self.page_ids_by_tag.wf()
        &&& self.tags_by_page_id.wf()
        &&& self.title_by_page_id.wf()
        &&& forall|id: Seq<char>|
            #[trigger] self.tags_by_page_id@.contains_key(id)
                ==> self.title_by_page_id@.contains_key(id)
        &&& forall|id: Seq<char>|
            #[trigger] self.title_by_page_id@.contains_key(id)
                ==> self.tags_by_page_id@.contains_key(id)
        &&& forall|t: Seq<char>|
            #[trigger] self.page_ids_by_tag@.contains_key(t) ==> self.page_ids_by_tag@[t]@
                == ids_with_tag(self.metas(), t) && self.page_ids_by_tag@[t]@.len() > 0
        &&& forall|id: Seq<char>, t: Seq<char>|
            self.tags_by_page_id@.contains_key(id) && #[trigger] self.tags_by_page_id@[id]@.contains(
                t,
            ) ==> #[trigger] self.page_ids_by_tag@.contains_key(t)
    }

    /// The index invariant: well-shaped tables that never diverge from the
    /// store's content.
    pub closed spec fn wf(&self) -> bool {
        &&& self.tables_wf()
        &&& self.metas() == self.pages().map_values(|pv: PageView| meta_of(pv))
    }

    /// Records a page the tables do not know yet.
    fn add_data_for_page(&mut self, page: &Parsed)
        requires
            old(self).tables_wf(),
            page.wf(),
            !old(self).metas().contains_key(page@.headers.id),
        ensures
            final(self).tables_wf(),
            final(self).metas() =~= old(self).metas().insert(page@.headers.id, meta_of(page@)),
            final(self).store == old(self).store,
    {
        let ghost m0 = old(self).metas();
        let id = String::from_str(page.id());
        self.tags_by_page_id.insert(id.clone(), page.tags.clone());
        self.title_by_page_id.insert(id.clone(), page.title.clone());
        proof {
            assert(self.metas() =~= m0.insert(page@.headers.id, meta_of(page@)));
        }
        let ghost m1 = self.metas();
        let ghost tags_seq = page.tags.items_seq();
        proof {
            page.tags.lemma_items();
        }
        let n = page.tags.len();
        let mut ti: usize = 0;
        while ti < n
            invariant
                ti <= n,
                n == tags_seq.len(),
                tags_seq == page.tags.items_seq(),
                page.wf(),
                id@ == page@.headers.id,
                m0 == old(self).metas(),
                m1 == m0.insert(page@.headers.id, meta_of(page@)),
                !m0.contains_key(page@.headers.id),
                self.metas() == m1,
                self.store == old(self).store,
                old(self).tables_wf(),
                self.page_ids_by_tag.wf(),
                self.tags_by_page_id.wf(),
                self.title_by_page_id.wf(),
                forall|id2: Seq<char>|
                    #[trigger] self.tags_by_page_id@.contains_key(id2)
                        ==> self.title_by_page_id@.contains_key(id2),
                forall|id2: Seq<char>|
                    #[trigger] self.title_by_page_id@.contains_key(id2)
                        ==> self.tags_by_page_id@.contains_key(id2),
                forall|t: Seq<char>|
                    #![trigger ids_with_tag(m1, t)]
                    (exists|j: int| 0 <= j < ti && tags_seq[j] == t)
                        ==> self.page_ids_by_tag@.contains_key(t) && self.page_ids_by_tag@[t]@
                        == ids_with_tag(m1, t) && self.page_ids_by_tag@[t]@.len() > 0,
                forall|t: Seq<char>|
                    #![trigger ids_with_tag(m1, t)]
                    !(exists|j: int| 0 <= j < ti && tags_seq[j] == t)
                        ==> (self.page_ids_by_tag@.contains_key(t) == old(
                        self,
                    ).page_ids_by_tag@.contains_key(t)) && (self.page_ids_by_tag@.contains_key(t)
                        ==> self.page_ids_by_tag@[t] == old(self).page_ids_by_tag@[t]),
            decreases n - ti,
        {
            let tag = page.tags.item_at(ti).clone();
            proof {
                page.tags.lemma_items();
                assert(tags_seq[ti as int] == tag@);
                assert(page.tags@.contains(tag@));
                assert(meta_of(page@).tags.contains(tag@));
            }
            let ghost target = ids_with_tag(m1, tag@);
            let s2 = match self.page_ids_by_tag.get(&tag) {
                Some(s) => {
                    let mut s2 = s.clone();
                    proof {
                        if exists|j: int| 0 <= j < ti && tags_seq[j] == tag@ {
                            assert(s2@ == ids_with_tag(m1, tag@));
                        } else {
                            assert(old(self).page_ids_by_tag@.contains_key(tag@));
                            assert(s2@ == ids_with_tag(m0, tag@));
                        }
                    }
                    s2.insert(id.clone());
                    proof {
                        assert(s2@ =~= target) by {
                            assert forall|x: Seq<char>| s2@.contains(x) implies target.contains(
                                x,
                            ) by {
                                if x != id@ {
                                    assert(ids_with_tag(m0, tag@).contains(x) || ids_with_tag(
                                        m1,
                                        tag@,
                                    ).contains(x));
                                }
                            }
                            assert forall|x: Seq<char>| target.contains(x) implies s2@.contains(
                                x,
                            ) by {
                                if x != id@ {
                                    assert(ids_with_tag(m0, tag@).contains(x));
                                }
                            }
                        }
                    }
                    s2
                },
                None => {
                    let mut s2 = StrSet::new();
                    s2.insert(id.clone());
                    proof {
                        assert(!old(self).page_ids_by_tag@.contains_key(tag@));
                        assert(s2@ =~= target) by {
                            assert forall|x: Seq<char>| target.contains(x) implies s2@.contains(
                                x,
                            ) by {
                                if x != id@ {
                                    assert(m0.contains_key(x) && m0[x].tags.contains(tag@));
                                    assert(self.tags_by_page_id@.contains_key(x));
                                    assert(old(self).tags_by_page_id@.contains_key(x));
                                    assert(old(self).tags_by_page_id@[x]@.contains(tag@));
                                    assert(old(self).page_ids_by_tag@.contains_key(tag@));
                                }
                            }
                        }
                    }
                    s2
                },
            };
            proof {
                use_type_invariant(&s2);
                s2.lemma_items();
                assert(s2@.contains(id@));
                if s2@.len() == 0 {
                    vstd::set_lib::lemma_len_subset(Set::<Seq<char>>::empty().insert(id@), s2@);
                }
            }
            let ghost preMap = self.page_ids_by_tag@;
            let ghost s2v = s2;
            self.page_ids_by_tag.insert(tag, s2);
            proof {
                assert(self.page_ids_by_tag@.contains_key(tags_seq[ti as int]));
                assert(self.page_ids_by_tag@[tags_seq[ti as int]] == s2v);
            }
            ti += 1;
            proof {
                assert forall|t: Seq<char>|
                    (exists|j: int| 0 <= j < ti && tags_seq[j] == t) implies
                    #[trigger] self.page_ids_by_tag@.contains_key(t) && self.page_ids_by_tag@[t]@
                        == ids_with_tag(m1, t) && self.page_ids_by_tag@[t]@.len() > 0 by {
                    if t == tags_seq[ti - 1] {
                        assert(self.page_ids_by_tag@[t] == s2v);
                        assert(s2v@ == target);
                        assert(s2v@.len() > 0);
                        assert(self.page_ids_by_tag@[t]@ =~= ids_with_tag(m1, t));
                    } else {
                        let j = choose|j: int| 0 <= j < ti && tags_seq[j] == t;
                        assert(0 <= j < ti - 1 && tags_seq[j] == t);
                        assert(exists|j2: int| 0 <= j2 < ti - 1 && tags_seq[j2] == t);
                        assert(preMap[t]@ == ids_with_tag(m1, t));
                        assert(t != tags_seq[ti - 1]);
                        assert(self.page_ids_by_tag@[t] == preMap[t]);
                        assert(self.page_ids_by_tag@[t]@ =~= ids_with_tag(m1, t));
                    }
                }
            }
        }
        proof {
            page.tags.lemma_items();
            assert forall|t: Seq<char>|
                #[trigger] self.page_ids_by_tag@.contains_key(t) implies self.page_ids_by_tag@[t]@
                == ids_with_tag(m1, t) && self.page_ids_by_tag@[t]@.len() > 0 by {
                let w = ids_with_tag(m1, t);
                if exists|j: int| 0 <= j < n && tags_seq[j] == t {
                    assert(self.page_ids_by_tag@[t]@ == w);
                    assert(self.page_ids_by_tag@[t]@.len() > 0);
                } else {
                    assert(self.page_ids_by_tag@.contains_key(t) == old(
                        self,
                    ).page_ids_by_tag@.contains_key(t));
                    assert(old(self).page_ids_by_tag@.contains_key(t));
                    assert(!page.tags@.contains(t)) by {
                        if page.tags@.contains(t) {
                            let j = choose|j: int|
                                0 <= j < tags_seq.len() && tags_seq[j] == t;
                        }
                    }
                    assert(self.page_ids_by_tag@[t] == old(self).page_ids_by_tag@[t]);
                    assert(self.page_ids_by_tag@[t]@ =~= w) by {
                        assert(old(self).page_ids_by_tag@[t]@ == ids_with_tag(m0, t));
                        assert(ids_with_tag(m0, t) =~= ids_with_tag(m1, t));
                    }
                }
            }
            assert forall|id2: Seq<char>, t: Seq<char>|
                self.tags_by_page_id@.contains_key(id2)
                    && #[trigger] self.tags_by_page_id@[id2]@.contains(t) implies
                #[trigger] self.page_ids_by_tag@.contains_key(t) by {
                let w = ids_with_tag(m1, t);
                assert(self.metas().contains_key(id2));
                assert(self.metas()[id2].tags == self.tags_by_page_id@[id2]@);
                assert(m1.contains_key(id2) && m1[id2].tags.contains(t));
                if id2 == page@.headers.id {
                    assert(meta_of(page@).tags.contains(t));
                    assert(page.tags@.contains(t));
                    page.tags.lemma_items();
                    let j = choose|j: int| 0 <= j < tags_seq.len() && tags_seq[j] == t;
                    assert(exists|j2: int| 0 <= j2 < n && tags_seq[j2] == t);
                } else {
                    assert(m0.contains_key(id2) && m0[id2].tags.contains(t));
                    assert(old(self).tags_by_page_id@.contains_key(id2));
                    assert(old(self).tags_by_page_id@[id2]@.contains(t));
                    assert(old(self).page_ids_by_tag@.contains_key(t));
                    if !(exists|j: int| 0 <= j < n && tags_seq[j] == t) {
                    }
                }
            }
        }
    }

    /// Drops every table entry for the page under `id`.
    fn clean_data_for_page(&mut self, id: &String)
        requires
            old(self).tables_wf(),
            old(self).metas().contains_key(id@),
        ensures
            final(self).tables_wf(),
            final(self).metas() =~= old(self).metas().remove(id@),
            final(self).store == old(self).store,
    {
        let ghost m0 = old(self).metas();
        let tags = match self.tags_by_page_id.get(id) {
            Some(s) => s.clone(),
            None => {
                proof {
                    assert(false);
                }
                StrSet::new()
            },
        };
        proof {
            assert(tags@ == m0[id@].tags);
        }
        self.tags_by_page_id.remove(id);
        self.title_by_page_id.remove(id);
        proof {
            assert(self.metas() =~= m0.remove(id@));
        }
        let ghost m1 = self.metas();
        let ghost tags_seq = tags.items_seq();
        proof {
            use_type_invariant(&tags);
            tags.lemma_items();
        }
        let n = tags.len();
        let mut ti: usize = 0;
        while ti < n
            invariant
                ti <= n,
                n == tags_seq.len(),
                tags_seq == tags.items_seq(),
                tags@ == m0[id@].tags,
                m0 == old(self).metas(),
                m0.contains_key(id@),
                m1 == m0.remove(id@),
                self.metas() == m1,
                self.store == old(self).store,
                old(self).tables_wf(),
                self.page_ids_by_tag.wf(),
                self.tags_by_page_id.wf(),
                self.title_by_page_id.wf(),
                forall|id2: Seq<char>|
                    #[trigger] self.tags_by_page_id@.contains_key(id2)
                        ==> self.title_by_page_id@.contains_key(id2),
                forall|id2: Seq<char>|
                    #[trigger] self.title_by_page_id@.contains_key(id2)
                        ==> self.tags_by_page_id@.contains_key(id2),
                forall|t: Seq<char>|
                    #![trigger ids_with_tag(m1, t)]
                    #![trigger self.page_ids_by_tag@.contains_key(t)]
                    (exists|j: int| 0 <= j < ti && tags_seq[j] == t) ==> (
                    self.page_ids_by_tag@.contains_key(t) ==> self.page_ids_by_tag@[t]@
                        == ids_with_tag(m1, t) && self.page_ids_by_tag@[t]@.len() > 0) && ((exists|
                        x: Seq<char>,
                    | ids_with_tag(m1, t).contains(x)) ==> self.page_ids_by_tag@.contains_key(t)),
                forall|t: Seq<char>|
                    #![trigger ids_with_tag(m1, t)]
                    #![trigger self.page_ids_by_tag@.contains_key(t)]
                    !(exists|j: int| 0 <= j < ti && tags_seq[j] == t)
                        ==> (self.page_ids_by_tag@.contains_key(t) == old(
                        self,
                    ).page_ids_by_tag@.contains_key(t)) && (self.page_ids_by_tag@.contains_key(t)
                        ==> self.page_ids_by_tag@[t] == old(self).page_ids_by_tag@[t]),
            decreases n - ti,
        {
            let tag = tags.item_at(ti).clone();
            proof {
                use_type_invariant(&tags);
                tags.lemma_items();
                assert(tags_seq[ti as int] == tag@);
                assert(tags@.contains(tag@));
                assert(m0[id@].tags.contains(tag@));
                assert(ids_with_tag(m0, tag@).contains(id@));
            }
            let ghost target = ids_with_tag(m1, tag@);
            let ghost preMap = self.page_ids_by_tag@;
            proof {
                assert forall|t: Seq<char>|
                    #![trigger ids_with_tag(m1, t)]
                    (exists|j: int| 0 <= j < ti && tags_seq[j] == t) implies (preMap.contains_key(
                        t,
                    ) ==> preMap[t]@ == ids_with_tag(m1, t) && preMap[t]@.len() > 0) && ((exists|
                        x: Seq<char>,
                    | ids_with_tag(m1, t).contains(x)) ==> preMap.contains_key(t)) by {}
                assert forall|t: Seq<char>|
                    #![trigger ids_with_tag(m1, t)]
                    !(exists|j: int| 0 <= j < ti && tags_seq[j] == t) implies (preMap.contains_key(
                        t,
                    ) == old(self).page_ids_by_tag@.contains_key(t)) && (preMap.contains_key(t)
                        ==> preMap[t] == old(self).page_ids_by_tag@[t]) by {
                    let w = ids_with_tag(m1, t);
                }
            }
            match self.page_ids_by_tag.get(&tag) {
                Some(s) => {
                    let mut s2 = s.clone();
                    proof {
                        if exists|j: int| 0 <= j < ti && tags_seq[j] == tag@ {
                            assert(s2@ == ids_with_tag(m1, tag@));
                        } else {
                            assert(old(self).page_ids_by_tag@.contains_key(tag@));
                            assert(s2@ == ids_with_tag(m0, tag@));
                        }
                    }
                    s2.remove(&id);
                    proof {
                        assert(s2@ =~= target) by {
                            assert forall|x: Seq<char>| s2@.contains(x) implies target.contains(
                                x,
                            ) by {
                                assert(x != id@);
                                assert(ids_with_tag(m0, tag@).contains(x) || ids_with_tag(
                                    m1,
                                    tag@,
                                ).contains(x));
                            }
                            assert forall|x: Seq<char>| target.contains(x) implies s2@.contains(
                                x,
                            ) by {
                                assert(x != id@);
                                assert(ids_with_tag(m0, tag@).contains(x));
                            }
                        }
                        use_type_invariant(&s2);
                        s2.lemma_items();
                    }
                    let empty_now = s2.len() == 0;
                    if empty_now {
                        self.page_ids_by_tag.remove(&tag);
                    } else {
                        self.page_ids_by_tag.insert(tag, s2);
                    }
                    proof {
                        if empty_now {
                            assert(s2@.len() == 0);
                            assert forall|x: Seq<char>| !target.contains(x) by {
                                if target.contains(x) {
                                    assert(s2@.contains(x));
                                    vstd::set_lib::lemma_len_subset(
                                        Set::<Seq<char>>::empty().insert(x),
                                        s2@,
                                    );
                                }
                            }
                        } else {
                            assert(self.page_ids_by_tag@[tags_seq[ti as int]]@ == target);
                            assert(self.page_ids_by_tag@[tags_seq[ti as int]]@.len() > 0);
                        }
                    }
                },
                None => {
                    proof {
                        use_type_invariant(&tags);
                        tags.lemma_items();
                        if exists|j: int| 0 <= j < ti && tags_seq[j] == tag@ {
                            assert(tags_seq.no_duplicates());
                            let j = choose|j: int| 0 <= j < ti && tags_seq[j] == tag@;
                            assert(tags_seq[j] == tags_seq[ti as int]);
                            assert(false);
                        } else {
                            assert(old(self).page_ids_by_tag@.contains_key(tag@)) by {
                                assert(old(self).tags_by_page_id@.contains_key(id@));
                                assert(old(self).tags_by_page_id@[id@]@.contains(tag@));
                            }
                            assert(false);
                        }
                    }
                },
            };
            ti += 1;
            proof {
                assert forall|t: Seq<char>|
                    #![trigger ids_with_tag(m1, t)]
                    (exists|j: int| 0 <= j < ti && tags_seq[j] == t) implies (
                    self.page_ids_by_tag@.contains_key(t) ==> self.page_ids_by_tag@[t]@
                        == ids_with_tag(m1, t) && self.page_ids_by_tag@[t]@.len() > 0) && ((exists|
                        x: Seq<char>,
                    | ids_with_tag(m1, t).contains(x)) ==> self.page_ids_by_tag@.contains_key(
                        t,
                    )) by {
                    if t == tags_seq[ti - 1] {
                        assert(t == tag@);
                        if self.page_ids_by_tag@.contains_key(t) {
                            assert(self.page_ids_by_tag@[t]@ =~= ids_with_tag(m1, t));
                            assert(self.page_ids_by_tag@[t]@.len() > 0);
                        }
                        if exists|x: Seq<char>| ids_with_tag(m1, t).contains(x) {
                            let x = choose|x: Seq<char>| ids_with_tag(m1, t).contains(x);
                            assert(target.contains(x));
                            assert(self.page_ids_by_tag@.contains_key(t));
                        }
                    } else {
                        assert(t != tags_seq[ti - 1]);
                        assert(self.page_ids_by_tag@.contains_key(t) == preMap.contains_key(t));
                        if preMap.contains_key(t) {
                            assert(self.page_ids_by_tag@[t] == preMap[t]);
                        }
                        let j = choose|j: int| 0 <= j < ti && tags_seq[j] == t;
                        assert(0 <= j < ti - 1 && tags_seq[j] == t);
                        assert(exists|j2: int| 0 <= j2 < ti - 1 && tags_seq[j2] == t);
                        if preMap.contains_key(t) {
                            assert(preMap[t]@ =~= ids_with_tag(m1, t));
                            assert(preMap[t]@ == ids_with_tag(m1, t));
                            assert(preMap[t]@.len() > 0);
                        }
                        assert((exists|x: Seq<char>| ids_with_tag(m1, t).contains(x))
                            ==> preMap.contains_key(t));
                    }
                }
                assert forall|t: Seq<char>|
                    #![trigger ids_with_tag(m1, t)]
                    !(exists|j: int| 0 <= j < ti && tags_seq[j] == t) implies (
                    self.page_ids_by_tag@.contains_key(t) == old(
                        self,
                    ).page_ids_by_tag@.contains_key(t)) && (self.page_ids_by_tag@.contains_key(t)
                        ==> self.page_ids_by_tag@[t] == old(self).page_ids_by_tag@[t]) by {
                    let w = ids_with_tag(m1, t);
                    assert(t != tags_seq[ti - 1]);
                    assert(self.page_ids_by_tag@.contains_key(t) == preMap.contains_key(t));
                    if preMap.contains_key(t) {
                        assert(self.page_ids_by_tag@[t] == preMap[t]);
                    }
                    assert(!(exists|j: int| 0 <= j < ti - 1 && tags_seq[j] == t));
                    assert(preMap.contains_key(t) == old(self).page_ids_by_tag@.contains_key(t));
                    if preMap.contains_key(t) {
                        assert(preMap[t] == old(self).page_ids_by_tag@[t]);
                    }
                }
            }
        }
        proof {
            tags.lemma_items();
            assert forall|t: Seq<char>|
                #[trigger] self.page_ids_by_tag@.contains_key(t) implies self.page_ids_by_tag@[t]@
                == ids_with_tag(m1, t) && self.page_ids_by_tag@[t]@.len() > 0 by {
                let w = ids_with_tag(m1, t);
                if exists|j: int| 0 <= j < n && tags_seq[j] == t {
                    assert(self.page_ids_by_tag@[t]@ == w);
                } else {
                    assert(old(self).page_ids_by_tag@.contains_key(t));
                    assert(!tags@.contains(t)) by {
                        if tags@.contains(t) {
                            let j = choose|j: int| 0 <= j < tags_seq.len() && tags_seq[j] == t;
                        }
                    }
                    assert(self.page_ids_by_tag@[t] == old(self).page_ids_by_tag@[t]);
                    assert(self.page_ids_by_tag@[t]@ =~= w) by {
                        assert(old(self).page_ids_by_tag@[t]@ == ids_with_tag(m0, t));
                        assert(ids_with_tag(m0, t) =~= ids_with_tag(m1, t)) by {
                            assert forall|x: Seq<char>|
                                ids_with_tag(m0, t).contains(x) implies ids_with_tag(
                                m1,
                                t,
                            ).contains(x) by {
                                assert(x != id@);
                            }
                        }
                    }
                }
            }
            assert forall|id2: Seq<char>, t: Seq<char>|
                self.tags_by_page_id@.contains_key(id2)
                    && #[trigger] self.tags_by_page_id@[id2]@.contains(t) implies
                #[trigger] self.page_ids_by_tag@.contains_key(t) by {
                let w = ids_with_tag(m1, t);
                assert(m1.contains_key(id2) && m1[id2].tags.contains(t));
                assert(w.contains(id2));
                assert(w.len() > 0) by {
                    if w.len() == 0 {
                        vstd::set_lib::lemma_len_subset(
                            Set::<Seq<char>>::empty().insert(id2),
                            w,
                        );
                    }
                }
                if exists|j: int| 0 <= j < n && tags_seq[j] == t {
                } else {
                    assert(id2 != id@);
                    assert(m0.contains_key(id2) && m0[id2].tags.contains(t));
                    assert(old(self).tags_by_page_id@.contains_key(id2));
                    assert(old(self).tags_by_page_id@[id2]@.contains(t));
                    assert(old(self).page_ids_by_tag@.contains_key(t));
                }
            }
        }
    }

    /// Builds the index for a store: one pass over every page it holds.
    pub fn new(store: T) -> (r: Result<Index<T>, StoreError>)
        ensures
            match r {
                Ok(ix) => ix.wf() && ix.pages() == store.pages() && ix.metas() == store.pages()
                    .map_values(|pv: PageView| meta_of(pv)),
                Err(_) => false,
            },
    {
        let mut s = Index {
            page_ids_by_tag: StrMap::new(),
            tags_by_page_id: StrMap::new(),
            title_by_page_id: StrMap::new(),
            store,
        };
        proof {
            assert(s.metas() =~= Map::<Seq<char>, PageMeta>::empty());
        }
        let ids = match s.store.iter() {
            Ok(v) => v,
            Err(e) => {
                proof {
                    assert(false);
                }
                return Err(e);
            },
        };
        let mut i: usize = 0;
        while i < ids.len()
            invariant
                i <= ids@.len(),
                s.tables_wf(),
                s.store == store,
                ids.deep_view().no_duplicates(),
                ids.deep_view().to_set() =~= store.pages().dom(),
                ids.deep_view().len() == ids@.len(),
                forall|k: Seq<char>|
                    #[trigger] s.metas().contains_key(k) == (exists|j: int|
                        0 <= j < i && ids.deep_view()[j] == k),
                forall|k: Seq<char>|
                    s.metas().contains_key(k) ==> store.pages().contains_key(k)
                        && #[trigger] s.metas()[k] == meta_of(store.pages()[k]),
            decreases ids@.len() - i,
        {
            let page = match s.store.get(&ids[i]) {
                Ok(p) => p,
                Err(e) => {
                    proof {
                        assert(ids.deep_view()[i as int] == ids@[i as int]@);
                        assert(ids.deep_view().to_set().contains(ids.deep_view()[i as int]));
                        assert(false);
                    }
                    return Err(e);
                },
            };
            proof {
                assert(ids.deep_view().to_set().contains(ids.deep_view()[i as int]));
                assert(store.pages().contains_key(ids@[i as int]@));
                assert(page@.headers.id == ids.deep_view()[i as int]);
                assert(!s.metas().contains_key(page@.headers.id)) by {
                    if exists|j: int| 0 <= j < i && ids.deep_view()[j] == page@.headers.id {
                        let j = choose|j: int|
                            0 <= j < i && ids.deep_view()[j] == page@.headers.id;
                        assert(ids.deep_view()[j] == ids.deep_view()[i as int]);
                    }
                }
            }
            s.add_data_for_page(&page);
            i += 1;
            proof {
                assert forall|k: Seq<char>|
                    #[trigger] s.metas().contains_key(k) == (exists|j: int|
                        0 <= j < i && ids.deep_view()[j] == k) by {
                    if s.metas().contains_key(k) {
                        if k == page@.headers.id {
                            assert(ids.deep_view()[i - 1] == k);
                        } else {
                            let j = choose|j: int| 0 <= j < i - 1 && ids.deep_view()[j] == k;
                        }
                    } else {
                        if exists|j: int| 0 <= j < i && ids.deep_view()[j] == k {
                            let j = choose|j: int| 0 <= j < i && ids.deep_view()[j] == k;
                            assert(j < i - 1 || k == page@.headers.id);
                            assert(false);
                        }
                    }
                }
            }
        }
        proof {
            assert(s.metas() =~= s.store.pages().map_values(|pv: PageView| meta_of(pv))) by {
                assert forall|k: Seq<char>| s.metas().contains_key(k) == s.store.pages()
                    .contains_key(k) by {
                    if store.pages().contains_key(k) {
                        assert(ids.deep_view().to_set().contains(k));
                        let j = choose|j: int|
                            0 <= j < ids.deep_view().len() && ids.deep_view()[j] == k;
                    }
                }
            }
        }
        Ok(s)
    }

    /// Creates or replaces a page: the store first, then the tables.
    pub fn put(&mut self, page: &Parsed) -> (r: Result<(), StoreError>)
        requires
            old(self).wf(),
            page.wf(),
        ensures
            final(self).wf(),
            match r {
                Ok(()) => final(self).pages() == old(self).pages().insert(page@.headers.id, page@)
                    && final(self).metas() == old(self).metas().insert(
                    page@.headers.id,
                    meta_of(page@),
                ),
                Err(e) => final(self).pages() == old(self).pages() && final(self).metas() == old(
                    self,
                ).metas() && e is IoFailure,
            },
    {
        match self.store.put(page) {
            Ok(()) => {
                let id = String::from_str(page.id());
                if self.tags_by_page_id.contains(&id) {
                    self.clean_data_for_page(&id);
                }
                self.add_data_for_page(page);
                proof {
                    assert(final(self).metas() =~= old(self).metas().insert(
                        page@.headers.id,
                        meta_of(page@),
                    ));
                    assert(final(self).metas() =~= final(self).pages().map_values(
                        |pv: PageView| meta_of(pv),
                    ));
                }
                Ok(())
            },
            Err(e) => Err(e),
        }
    }

    /// Removes a page: the store first, then the tables.
    pub fn delete(&mut self, id: &String) -> (r: Result<(), StoreError>)
        requires
            old(self).wf(),
        ensures
            final(self).wf(),
            match r {
                Ok(()) => old(self).pages().contains_key(id@) && final(self).pages() == old(
                    self,
                ).pages().remove(id@) && final(self).metas() == old(self).metas().remove(id@),
                Err(e) => final(self).pages() == old(self).pages() && final(self).metas() == old(
                    self,
                ).metas() && ((e is NotFound) == !old(self).pages().contains_key(id@)),
            },
    {
        match self.store.delete(id) {
            Ok(()) => {
                proof {
                    assert(old(self).metas().contains_key(id@));
                }
                self.clean_data_for_page(id);
                proof {
                    assert(final(self).metas() =~= old(self).metas().remove(id@));
                    assert(final(self).metas() =~= final(self).pages().map_values(
                        |pv: PageView| meta_of(pv),
                    ));
                }
                Ok(())
            },
            Err(e) => Err(e),
        }
    }

    /// One entry per known page.
    fn all_infos(&self) -> (r: Vec<PageInfo>)
        requires
            self.tables_wf(),
        ensures
            infos_ok(r@, self.metas().dom(), self.metas()),
    {
        proof {
            self.tags_by_page_id.lemma_entries();
        }
        let n = self.tags_by_page_id.len();
        let mut r: Vec<PageInfo> = Vec::new();
        let mut i: usize = 0;
        while i < n
            invariant
                self.tables_wf(),
                n == self.tags_by_page_id.keys_seq().len(),
                i <= n,
                info_ids(r@) =~= self.tags_by_page_id.keys_seq().take(i as int),
                forall|i2: int|
                    0 <= i2 < r@.len() ==> self.metas().contains_key(#[trigger] r@[i2].id@)
                        && r@[i2].title@ == self.metas()[r@[i2].id@].title,
            decreases n - i,
        {
            proof {
                self.tags_by_page_id.lemma_entries();
            }
            let id = self.tags_by_page_id.key_at(i).clone();
            proof {
                assert(self.tags_by_page_id@.contains_key(id@));
                assert(self.title_by_page_id@.contains_key(id@));
            }
            let title = match self.title_by_page_id.get(&id) {
                Some(t) => t.clone(),
                None => {
                    proof {
                        assert(false);
                    }
                    String::new()
                },
            };
            let ghost r0 = r@;
            let ghost idv = id@;
            r.push(PageInfo { id, title });
            i += 1;
            proof {
                let ks = self.tags_by_page_id.keys_seq();
                assert(info_ids(r0) =~= ks.take(i - 1));
                assert(idv == ks[i - 1]);
                assert(r@[r@.len() - 1].id@ == idv);
                assert(r@.len() == i);
                assert forall|j: int| 0 <= j < r@.len() implies #[trigger] info_ids(r@)[j]
                    == ks.take(i as int)[j] by {
                    if j < r@.len() - 1 {
                        assert(r@[j] == r0[j]);
                        assert(info_ids(r0)[j] == ks.take(i - 1)[j]);
                    }
                }
                assert(info_ids(r@) =~= ks.take(i as int));
            }
        }
        proof {
            self.tags_by_page_id.lemma_entries();
            assert(info_ids(r@) =~= self.tags_by_page_id.keys_seq());
            assert(info_ids(r@).to_set() =~= self.metas().dom());
        }
        r
    }

    /// One entry per id in `s`.
    fn infos_from_set(&self, s: &StrSet) -> (r: Vec<PageInfo>)
        requires
            self.tables_wf(),
            forall|x: Seq<char>| s@.contains(x) ==> self.metas().contains_key(x),
        ensures
            infos_ok(r@, s@, self.metas()),
    {
        proof {
            use_type_invariant(&*s);
            s.lemma_items();
        }
        let n = s.len();
        let mut r: Vec<PageInfo> = Vec::new();
        let mut i: usize = 0;
        while i < n
            invariant
                self.tables_wf(),
                forall|x: Seq<char>| s@.contains(x) ==> self.metas().contains_key(x),
                n == s.items_seq().len(),
                i <= n,
                info_ids(r@) =~= s.items_seq().take(i as int),
                forall|i2: int|
                    0 <= i2 < r@.len() ==> self.metas().contains_key(#[trigger] r@[i2].id@)
                        && r@[i2].title@ == self.metas()[r@[i2].id@].title,
            decreases n - i,
        {
            proof {
                use_type_invariant(&*s);
                s.lemma_items();
            }
            let id = s.item_at(i).clone();
            proof {
                assert(s@.contains(id@));
                assert(self.metas().contains_key(id@));
                assert(self.title_by_page_id@.contains_key(id@));
            }
            let title = match self.title_by_page_id.get(&id) {
                Some(t) => t.clone(),
                None => {
                    proof {
                        assert(false);
                    }
                    String::new()
                },
            };
            let ghost r0 = r@;
            let ghost idv = id@;
            r.push(PageInfo { id, title });
            i += 1;
            proof {
                let ks = s.items_seq();
                assert(info_ids(r0) =~= ks.take(i - 1));
                assert(idv == ks[i - 1]);
                assert(r@[r@.len() - 1].id@ == idv);
                assert(r@.len() == i);
                assert forall|j: int| 0 <= j < r@.len() implies #[trigger] info_ids(r@)[j]
                    == ks.take(i as int)[j] by {
                    if j < r@.len() - 1 {
                        assert(r@[j] == r0[j]);
                        assert(info_ids(r0)[j] == ks.take(i - 1)[j]);
                    }
                }
                assert(info_ids(r@) =~= ks.take(i as int));
            }
        }
        proof {
            use_type_invariant(&*s);
            s.lemma_items();
            assert(info_ids(r@) =~= s.items_seq());
            assert(info_ids(r@).to_set() =~= s@) by {
                assert forall|x: Seq<char>| s@.contains(x) implies info_ids(r@).to_set().contains(
                    x,
                ) by {
                    let j = choose|j: int|
                        0 <= j < s.items_seq().len() && s.items_seq()[j] == x;
                }
            }
        }
        r
    }

    /// Looks pages up by an ordered list of tags: a left-to-right
    /// intersection walk with the prefix-consumed early return.
    pub fn find(&self, tags: &Vec<String>) -> (r: FindResults)
        requires
            self.wf(),
        ensures
            ({
                let out = find_spec(self.metas(), tags.deep_view());
                &&& r.matching_tags.deep_view() == out.consumed
                &&& infos_ok(r.matching_pages@, out.ids, self.metas())
            }),
    {
        let ghost m = self.metas();
        let ghost tagsd = tags.deep_view();
        if tags.len() == 0 {
            let pages = self.all_infos();
            let none: Vec<String> = Vec::new();
            proof {
                assert(tagsd.len() == 0);
                assert(none.deep_view() =~= Seq::<Seq<char>>::empty());
            }
            return FindResults { matching_pages: pages, matching_tags: none };
        }
        let t0 = &tags[0];
        proof {
            assert(tagsd[0] == t0@);
        }
        let s0 = match self.page_ids_by_tag.get(t0) {
            Some(s) => s,
            None => {
                let none: Vec<String> = Vec::new();
                let nopages: Vec<PageInfo> = Vec::new();
                proof {
                    assert forall|x: Seq<char>| !ids_with_tag(m, t0@).contains(x) by {
                        if ids_with_tag(m, t0@).contains(x) {
                            assert(self.tags_by_page_id@.contains_key(x));
                            assert(self.tags_by_page_id@[x]@.contains(t0@));
                        }
                    }
                    assert(none.deep_view() =~= Seq::<Seq<char>>::empty());
                    assert(info_ids(nopages@) =~= Seq::<Seq<char>>::empty());
                    assert(info_ids(nopages@).to_set() =~= Set::<Seq<char>>::empty());
                }
                return FindResults { matching_pages: nopages, matching_tags: none };
            },
        };
        proof {
            use_type_invariant(&*s0);
            s0.lemma_items();
            assert(s0@ == ids_with_tag(m, t0@));
            assert(s0@.len() > 0);
            assert(s0@.contains(s0.items_seq()[0]));
        }
        let mut cur = self.infos_from_set(s0);
        let mut consumed: Vec<String> = Vec::new();
        consumed.push(t0.clone());
        let ghost mut curset = s0@;
        proof {
            assert(consumed.deep_view() =~= seq![t0@]);
            assert(tagsd.drop_first() =~= tagsd.skip(1));
            assert(find_spec(m, tagsd) == find_rec(m, tagsd.skip(1), curset, consumed.deep_view()));
        }
        let mut i: usize = 1;
        while i < tags.len()
            invariant
                self.wf(),
                m == self.metas(),
                tagsd == tags.deep_view(),
                1 <= i <= tags@.len(),
                tagsd.len() == tags@.len(),
                find_spec(m, tagsd) == find_rec(
                    m,
                    tagsd.skip(i as int),
                    curset,
                    consumed.deep_view(),
                ),
                infos_ok(cur@, curset, m),
            decreases tags@.len() - i,
        {
            let ghost rem = tagsd.skip(i as int);
            let t = &tags[i];
            proof {
                assert(rem[0] == t@);
                assert(rem.drop_first() =~= tagsd.skip(i as int + 1));
            }
            if vec_contains_string(&consumed, t) {
                proof {
                    assert(consumed.deep_view().contains(t@));
                    assert(find_rec(m, rem, curset, consumed.deep_view()) == find_rec(
                        m,
                        rem.drop_first(),
                        curset,
                        consumed.deep_view(),
                    ));
                }
                i += 1;
            } else {
                match self.page_ids_by_tag.get(t) {
                    Some(set) => {
                        proof {
                            assert(set@ == ids_with_tag(m, t@));
                        }
                        let inter = filter_infos(&cur, set);
                        if inter.len() == 0 {
                            proof {
                                assert(info_ids(inter@).to_set() =~= curset.intersect(
                                    ids_with_tag(m, t@),
                                ));
                                assert forall|x: Seq<char>|
                                    !curset.intersect(ids_with_tag(m, t@)).contains(x) by {
                                    if curset.intersect(ids_with_tag(m, t@)).contains(x) {
                                        assert(info_ids(inter@).to_set().contains(x));
                                        let j = choose|j: int|
                                            0 <= j < info_ids(inter@).len() && info_ids(inter@)[j]
                                                == x;
                                    }
                                }
                                assert(find_rec(m, rem, curset, consumed.deep_view())
                                    == FindOutcome { ids: curset, consumed: consumed.deep_view() });
                            }
                            return FindResults { matching_pages: cur, matching_tags: consumed };
                        }
                        proof {
                            assert(info_ids(inter@).to_set().contains(info_ids(inter@)[0]));
                            assert(find_rec(m, rem, curset, consumed.deep_view()) == find_rec(
                                m,
                                rem.drop_first(),
                                curset.intersect(ids_with_tag(m, t@)),
                                consumed.deep_view().push(t@),
                            ));
                            assert forall|i2: int| 0 <= i2 < inter@.len() implies m.contains_key(
                                #[trigger] inter@[i2].id@,
                            ) && inter@[i2].title@ == m[inter@[i2].id@].title by {
                                assert(cur@.contains(inter@[i2]));
                                let j = choose|j: int|
                                    0 <= j < cur@.len() && cur@[j] == inter@[i2];
                            }
                        }
                        let ghost c0 = consumed.deep_view();
                        consumed.push(t.clone());
                        proof {
                            assert(consumed.deep_view() =~= c0.push(t@));
                            curset = curset.intersect(ids_with_tag(m, t@));
                        }
                        cur = inter;
                        i += 1;
                    },
                    None => {
                        proof {
                            assert forall|x: Seq<char>| !ids_with_tag(m, t@).contains(x) by {
                                if ids_with_tag(m, t@).contains(x) {
                                    assert(self.tags_by_page_id@.contains_key(x));
                                    assert(self.tags_by_page_id@[x]@.contains(t@));
                                }
                            }
                            assert forall|x: Seq<char>|
                                !curset.intersect(ids_with_tag(m, t@)).contains(x) by {}
                            assert(find_rec(m, rem, curset, consumed.deep_view()) == FindOutcome {
                                ids: curset,
                                consumed: consumed.deep_view(),
                            });
                        }
                        return FindResults { matching_pages: cur, matching_tags: consumed };
                    },
                }
            }
        }
        proof {
            assert(tagsd.skip(i as int) =~= Seq::<Seq<char>>::empty());
            assert(find_rec(m, tagsd.skip(i as int), curset, consumed.deep_view()) == FindOutcome {
                ids: curset,
                consumed: consumed.deep_view(),
            });
        }
        FindResults { matching_pages: cur, matching_tags: consumed }
    }

    /// How many of the given pages carry tag `t`.
    fn count_carriers(&self, pages: &Vec<PageInfo>, t: &String) -> (c: usize)
        requires
            self.wf(),
            info_ids(pages@).no_duplicates(),
            forall|i: int|
                0 <= i < pages@.len() ==> self.metas().contains_key(#[trigger] pages@[i].id@),
        ensures
            c == carriers(self.metas(), info_ids(pages@).to_set(), t@).len(),
    {
        let ghost m = self.metas();
        let mut c: usize = 0;
        let mut j: usize = 0;
        proof {
            broadcast use vstd::seq_lib::seq_to_set_is_finite;

            assert(carriers(m, info_ids(pages@.take(0)).to_set(), t@) =~= Set::<
                Seq<char>,
            >::empty());
        }
        while j < pages.len()
            invariant
                self.wf(),
                m == self.metas(),
                info_ids(pages@).no_duplicates(),
                forall|i: int|
                    0 <= i < pages@.len() ==> self.metas().contains_key(#[trigger] pages@[i].id@),
                j <= pages@.len(),
                c <= j,
                c == carriers(m, info_ids(pages@.take(j as int)).to_set(), t@).len(),
            decreases pages@.len() - j,
        {
            broadcast use vstd::seq_lib::seq_to_set_is_finite;

            let ghost pre = carriers(m, info_ids(pages@.take(j as int)).to_set(), t@);
            let ghost post = carriers(m, info_ids(pages@.take(j as int + 1)).to_set(), t@);
            let ghost idv = pages@[j as int].id@;
            proof {
                assert(info_ids(pages@.take(j as int + 1)) =~= info_ids(pages@.take(j as int)).push(
                    idv,
                ));
                assert(pre.finite()) by {
                    vstd::set_lib::lemma_len_subset(
                        pre,
                        info_ids(pages@.take(j as int)).to_set(),
                    );
                }
                assert(!pre.contains(idv)) by {
                    if info_ids(pages@.take(j as int)).to_set().contains(idv) {
                        let k = choose|k: int|
                            0 <= k < j && info_ids(pages@.take(j as int))[k] == idv;
                        assert(info_ids(pages@)[k] == info_ids(pages@)[j as int]);
                    }
                }
                assert forall|x: Seq<char>|
                    #![trigger info_ids(pages@.take(j as int + 1)).to_set().contains(x)]
                    info_ids(pages@.take(j as int + 1)).to_set().contains(x) == (info_ids(
                        pages@.take(j as int),
                    ).to_set().contains(x) || x == idv) by {
                    if info_ids(pages@.take(j as int + 1)).to_set().contains(x) {
                        let k = choose|k: int|
                            0 <= k <= j && #[trigger] info_ids(pages@.take(j as int + 1))[k] == x;
                        if k < j {
                            assert(info_ids(pages@.take(j as int))[k] == x);
                        }
                    } else {
                        if info_ids(pages@.take(j as int)).to_set().contains(x) {
                            let k = choose|k: int|
                                0 <= k < j && #[trigger] info_ids(pages@.take(j as int))[k] == x;
                            assert(info_ids(pages@.take(j as int + 1))[k] == x);
                        }
                        if x == idv {
                            assert(info_ids(pages@.take(j as int + 1))[j as int] == x);
                        }
                    }
                }
            }
            let carries = match self.tags_by_page_id.get(&pages[j].id) {
                Some(s) => s.contains(t),
                None => {
                    proof {
                        assert(false);
                    }
                    false
                },
            };
            proof {
                assert(carries == m[idv].tags.contains(t@));
                if carries {
                    assert(post =~= pre.insert(idv));
                    assert(post.len() == pre.len() + 1);
                } else {
                    assert(post =~= pre);
                }
            }
            if carries {
                c += 1;
            }
            j += 1;
        }
        proof {
            assert(pages@.take(pages@.len() as int) =~= pages@);
        }
        c
    }

    /// Compacts a find result for display: the refinement tags (tags on some
    /// matched page, beyond the query) with how many matched pages carry
    /// each, ordered by falling count then name; and the matched pages that
    /// carry no refinement tag, ordered by title.
    pub fn compact_results(&self, results: FindResults) -> (r: CompactResults)
        requires
            self.wf(),
            info_ids(results.matching_pages@).no_duplicates(),
            forall|i: int|
                0 <= i < results.matching_pages@.len() ==> self.metas().contains_key(
                    #[trigger] results.matching_pages@[i].id@,
                ) && results.matching_pages@[i].title@ == self.metas()[results.matching_pages@[
                    i
                ].id@].title,
        ensures
            ({
                let m = self.metas();
                let matched = info_ids(results.matching_pages@).to_set();
                let q = results.matching_tags.deep_view().to_set();
                &&& forall|k: int|
                    0 <= k < r.tags@.len() ==> leftover_tag(m, matched, q, #[trigger] r.tags@[k].0@)
                        && r.tags@[k].1 == carriers(m, matched, r.tags@[k].0@).len()
                &&& forall|t: Seq<char>|
                    leftover_tag(m, matched, q, t) ==> entry_names(r.tags@).contains(t)
                &&& forall|k1: int, k2: int|
                    0 <= k1 < k2 < r.tags@.len() ==> tag_before(
                        #[trigger] r.tags@[k1].0@,
                        r.tags@[k1].1 as int,
                        #[trigger] r.tags@[k2].0@,
                        r.tags@[k2].1 as int,
                    )
                &&& forall|k: int|
                    0 <= k < r.pages@.len() ==> matched.contains(#[trigger] r.pages@[k].id@)
                        && m.contains_key(r.pages@[k].id@) && r.pages@[k].title@ == m[r.pages@[
                        k
                    ].id@].title && m[r.pages@[k].id@].tags.subset_of(q)
                &&& forall|k1: int, k2: int|
                    0 <= k1 < k2 < r.pages@.len() ==> #[trigger] r.pages@[k1].id@
                        != #[trigger] r.pages@[k2].id@
                &&& forall|k1: int, k2: int|
                    0 <= k1 < k2 < r.pages@.len() ==> crate::text::lex_lt(
                        #[trigger] r.pages@[k1].title@,
                        #[trigger] r.pages@[k2].title@,
                    ) || r.pages@[k1].title@ == r.pages@[k2].title@
                &&& forall|id: Seq<char>|
                    matched.contains(id) && m.contains_key(id) && #[trigger] m[id].tags.subset_of(
                        q,
                    ) ==> info_ids(r.pages@).contains(id)
            }),
    {
        let ghost m = self.metas();
        let ghost matched = info_ids(results.matching_pages@).to_set();
        let ghost q = results.matching_tags.deep_view().to_set();
        let pages_in = &results.matching_pages;
        // every refinement tag, once
        let mut found: Vec<String> = Vec::new();
        let mut i: usize = 0;
        while i < pages_in.len()
            invariant
                self.wf(),
                m == self.metas(),
                matched == info_ids(results.matching_pages@).to_set(),
                q == results.matching_tags.deep_view().to_set(),
                pages_in == &results.matching_pages,
                info_ids(results.matching_pages@).no_duplicates(),
                forall|i2: int|
                    0 <= i2 < results.matching_pages@.len() ==> self.metas().contains_key(
                        #[trigger] results.matching_pages@[i2].id@,
                    ),
                i <= pages_in@.len(),
                found.deep_view().no_duplicates(),
                forall|k: int|
                    0 <= k < found.deep_view().len() ==> leftover_tag(
                        m,
                        matched,
                        q,
                        #[trigger] found.deep_view()[k],
                    ),
                forall|j: int, t: Seq<char>|
                    #![trigger m[results.matching_pages@[j].id@].tags.contains(t)]
                    0 <= j < i && m[results.matching_pages@[j].id@].tags.contains(t)
                        && !q.contains(t) ==> found.deep_view().contains(t),
            decreases pages_in@.len() - i,
        {
            let ghost idv = pages_in@[i as int].id@;
            let set = match self.tags_by_page_id.get(&pages_in[i].id) {
                Some(s) => s,
                None => {
                    proof {
                        assert(false);
                    }
                    unreached()
                },
            };
            proof {
                use_type_invariant(&*set);
                set.lemma_items();
                assert(set@ == m[idv].tags);
            }
            let n = set.len();
            let mut k: usize = 0;
            while k < n
                invariant
                    self.wf(),
                    m == self.metas(),
                    matched == info_ids(results.matching_pages@).to_set(),
                    q == results.matching_tags.deep_view().to_set(),
                    pages_in == &results.matching_pages,
                    i < pages_in@.len(),
                    idv == pages_in@[i as int].id@,
                    m.contains_key(idv),
                    set@ == m[idv].tags,
                    n == set.items_seq().len(),
                    k <= n,
                    found.deep_view().no_duplicates(),
                    forall|k2: int|
                        0 <= k2 < found.deep_view().len() ==> leftover_tag(
                            m,
                            matched,
                            q,
                            #[trigger] found.deep_view()[k2],
                        ),
                    forall|j: int, t: Seq<char>|
                        #![trigger m[results.matching_pages@[j].id@].tags.contains(t)]
                        0 <= j < i && m[results.matching_pages@[j].id@].tags.contains(t)
                            && !q.contains(t) ==> found.deep_view().contains(t),
                    forall|k2: int|
                        0 <= k2 < k && !q.contains(#[trigger] set.items_seq()[k2])
                            ==> found.deep_view().contains(set.items_seq()[k2]),
                decreases n - k,
            {
                proof {
                    use_type_invariant(&*set);
                    set.lemma_items();
                }
                let tag = set.item_at(k).clone();
                proof {
                    assert(tag@ == set.items_seq()[k as int]);
                    assert(set@.contains(tag@));
                }
                let in_q = vec_contains_string(&results.matching_tags, &tag);
                let in_f = vec_contains_string(&found, &tag);
                if !in_q && !in_f {
                    let ghost f0 = found.deep_view();
                    found.push(tag);
                    proof {
                        assert(found.deep_view() =~= f0.push(set.items_seq()[k as int]));
                        assert forall|t2: Seq<char>| f0.contains(t2) implies found.deep_view()
                            .contains(t2) by {
                            let idx = choose|idx: int| 0 <= idx < f0.len() && f0[idx] == t2;
                            assert(found.deep_view()[idx] == t2);
                        }
                        assert(matched.contains(idv)) by {
                            assert(info_ids(results.matching_pages@)[i as int] == idv);
                        }
                        assert(carriers(m, matched, set.items_seq()[k as int]).contains(idv));
                        assert forall|k2: int| 0 <= k2 < found.deep_view().len() implies
                            leftover_tag(m, matched, q, #[trigger] found.deep_view()[k2]) by {
                            if k2 < f0.len() {
                                assert(found.deep_view()[k2] == f0[k2]);
                            }
                        }
                    }
                }
                k += 1;
                proof {
                    assert forall|k2: int|
                        0 <= k2 < k && !q.contains(#[trigger] set.items_seq()[k2]) implies found
                        .deep_view().contains(set.items_seq()[k2]) by {
                        if k2 == k - 1 {
                            assert(q.contains(set.items_seq()[k2])
                                == results.matching_tags.deep_view().contains(
                                set.items_seq()[k2],
                            ));
                            assert(!in_q);
                            if in_f {
                                assert(found.deep_view().contains(set.items_seq()[k2]));
                            } else {
                                assert(found.deep_view()[found.deep_view().len() - 1]
                                    == set.items_seq()[k2]);
                            }
                        }
                    }
                }
            }
            i += 1;
            proof {
                assert forall|j: int, t: Seq<char>|
                    #![trigger m[results.matching_pages@[j].id@].tags.contains(t)]
                    0 <= j < i && m[results.matching_pages@[j].id@].tags.contains(t)
                        && !q.contains(t) implies found.deep_view().contains(t) by {
                    if j == i - 1 {
                        assert(set@.contains(t));
                        let k2 = choose|k2: int|
                            0 <= k2 < set.items_seq().len() && set.items_seq()[k2] == t;
                    }
                }
            }
        }
        // count the matched pages behind each refinement tag
        let mut entries: Vec<(String, usize)> = Vec::new();
        let mut k: usize = 0;
        while k < found.len()
            invariant
                self.wf(),
                m == self.metas(),
                matched == info_ids(results.matching_pages@).to_set(),
                q == results.matching_tags.deep_view().to_set(),
                pages_in == &results.matching_pages,
                info_ids(results.matching_pages@).no_duplicates(),
                forall|i2: int|
                    0 <= i2 < results.matching_pages@.len() ==> self.metas().contains_key(
                        #[trigger] results.matching_pages@[i2].id@,
                    ),
                k <= found@.len(),
                found.deep_view().no_duplicates(),
                forall|k2: int|
                    0 <= k2 < found.deep_view().len() ==> leftover_tag(
                        m,
                        matched,
                        q,
                        #[trigger] found.deep_view()[k2],
                    ),
                entries@.len() == k,
                forall|k2: int| 0 <= k2 < k ==> #[trigger] entries@[k2].0@ == found.deep_view()[k2],
                forall|k2: int|
                    0 <= k2 < entries@.len() ==> #[trigger] entries@[k2].1 == carriers(
                        m,
                        matched,
                        entries@[k2].0@,
                    ).len(),
            decreases found@.len() - k,
        {
            let t = found[k].clone();
            proof {
                assert(t@ == found.deep_view()[k as int]);
            }
            let c = self.count_carriers(pages_in, &t);
            let ghost e0 = entries@;
            let ghost tv = t@;
            entries.push((t, c));
            k += 1;
            proof {
                assert(entries@[entries@.len() - 1].0@ == tv);
                assert forall|k2: int| 0 <= k2 < k implies #[trigger] entries@[k2].0@
                    == found.deep_view()[k2] by {
                    if k2 < e0.len() {
                        assert(entries@[k2] == e0[k2]);
                    }
                }
                assert forall|k2: int| 0 <= k2 < entries@.len() implies #[trigger] entries@[k2].1
                    == carriers(m, matched, entries@[k2].0@).len() by {
                    if k2 < e0.len() {
                        assert(entries@[k2] == e0[k2]);
                    }
                }
            }
        }
        proof {
            assert forall|k2: int| 0 <= k2 < entries@.len() implies #[trigger] entry_names(
                entries@,
            )[k2] == found.deep_view()[k2] by {}
            assert(entry_names(entries@) =~= found.deep_view());
        }
        let tags_sorted = sort_tag_entries(entries);
        // the matched pages the query reaches exactly
        let mut keep: Vec<PageInfo> = Vec::new();
        let mut i2: usize = 0;
        while i2 < pages_in.len()
            invariant
                self.wf(),
                m == self.metas(),
                matched == info_ids(results.matching_pages@).to_set(),
                q == results.matching_tags.deep_view().to_set(),
                pages_in == &results.matching_pages,
                info_ids(results.matching_pages@).no_duplicates(),
                forall|i3: int|
                    0 <= i3 < results.matching_pages@.len() ==> self.metas().contains_key(
                        #[trigger] results.matching_pages@[i3].id@,
                    ) && results.matching_pages@[i3].title@ == self.metas()[
                        results.matching_pages@[i3].id@
                    ].title,
                i2 <= pages_in@.len(),
                info_ids(keep@).no_duplicates(),
                forall|k2: int|
                    0 <= k2 < keep@.len() ==> exists|j: int|
                        0 <= j < i2 && results.matching_pages@[j] == #[trigger] keep@[k2],
                forall|k2: int|
                    0 <= k2 < keep@.len() ==> matched.contains(#[trigger] keep@[k2].id@)
                        && m.contains_key(keep@[k2].id@) && keep@[k2].title@ == m[keep@[
                        k2
                    ].id@].title && m[keep@[k2].id@].tags.subset_of(q),
                forall|j: int|
                    0 <= j < i2 && #[trigger] m[results.matching_pages@[j].id@].tags.subset_of(q)
                        ==> info_ids(keep@).contains(results.matching_pages@[j].id@),
            decreases pages_in@.len() - i2,
        {
            let ghost idv = pages_in@[i2 as int].id@;
            let set = match self.tags_by_page_id.get(&pages_in[i2].id) {
                Some(s) => s,
                None => {
                    proof {
                        assert(false);
                    }
                    unreached()
                },
            };
            proof {
                use_type_invariant(&*set);
                set.lemma_items();
                assert(set@ == m[idv].tags);
            }
            let n = set.len();
            let mut all_in = true;
            let mut k2: usize = 0;
            while k2 < n && all_in
                invariant
                    q == results.matching_tags.deep_view().to_set(),
                    n == set.items_seq().len(),
                    k2 <= n,
                    all_in ==> forall|k3: int|
                        0 <= k3 < k2 ==> q.contains(#[trigger] set.items_seq()[k3]),
                    !all_in ==> exists|k3: int|
                        0 <= k3 < n && !q.contains(#[trigger] set.items_seq()[k3]),
                decreases n - k2,
            {
                proof {
                    use_type_invariant(&*set);
                    set.lemma_items();
                }
                if !vec_contains_string(&results.matching_tags, set.item_at(k2)) {
                    all_in = false;
                    proof {
                        assert(!q.contains(set.items_seq()[k2 as int]));
                    }
                }
                k2 += 1;
            }
            let ghost k0 = keep@;
            if all_in {
                keep.push(pages_in[i2].clone());
                proof {
                    assert(keep@ =~= k0.push(results.matching_pages@[i2 as int]));
                    assert(set@.subset_of(q)) by {
                        assert forall|t: Seq<char>| set@.contains(t) implies q.contains(t) by {
                            let k3 = choose|k3: int|
                                0 <= k3 < set.items_seq().len() && set.items_seq()[k3] == t;
                        }
                    }
                    assert(matched.contains(idv)) by {
                        assert(info_ids(results.matching_pages@)[i2 as int] == idv);
                    }
                    assert forall|k2: int| 0 <= k2 < keep@.len() implies exists|j: int|
                        0 <= j < i2 + 1 && results.matching_pages@[j] == #[trigger] keep@[k2] by {
                        if k2 < k0.len() {
                            assert(keep@[k2] == k0[k2]);
                            let j = choose|j: int|
                                0 <= j < i2 && results.matching_pages@[j] == k0[k2];
                        } else {
                            assert(keep@[k2] == results.matching_pages@[i2 as int]);
                        }
                    }
                    assert(info_ids(keep@).no_duplicates()) by {
                        assert(info_ids(keep@) =~= info_ids(k0).push(idv));
                        assert forall|a: int, b: int|
                            0 <= a < b < info_ids(keep@).len() implies info_ids(keep@)[a]
                            != info_ids(keep@)[b] by {
                            if b < info_ids(k0).len() {
                                assert(info_ids(keep@)[a] == info_ids(k0)[a]);
                                assert(info_ids(keep@)[b] == info_ids(k0)[b]);
                            } else {
                                assert(info_ids(keep@)[b] == idv);
                                assert(info_ids(keep@)[a] == info_ids(k0)[a]);
                                assert(keep@[a] == k0[a]);
                                let j3 = choose|j3: int|
                                    0 <= j3 < i2 && results.matching_pages@[j3] == k0[a];
                                if info_ids(k0)[a] == idv {
                                    assert(info_ids(results.matching_pages@)[j3] == k0[a].id@);
                                    assert(info_ids(results.matching_pages@)[j3] == info_ids(
                                        results.matching_pages@,
                                    )[i2 as int]);
                                    assert(false);
                                }
                            }
                        }
                    }
                }
            } else {
                proof {
                    let k3 = choose|k3: int|
                        0 <= k3 < n && !q.contains(#[trigger] set.items_seq()[k3]);
                    assert(set@.contains(set.items_seq()[k3]));
                    assert(!m[idv].tags.subset_of(q));
                }
            }
            i2 += 1;
            proof {
                assert forall|j: int|
                    0 <= j < i2 && #[trigger] m[results.matching_pages@[j].id@].tags.subset_of(
                        q,
                    ) implies info_ids(keep@).contains(results.matching_pages@[j].id@) by {
                    if j < i2 - 1 {
                        assert(info_ids(k0).contains(results.matching_pages@[j].id@));
                        let idx = choose|idx: int|
                            0 <= idx < info_ids(k0).len() && info_ids(k0)[idx]
                                == results.matching_pages@[j].id@;
                        assert(keep@[idx] == k0[idx]);
                        assert(info_ids(keep@)[idx] == info_ids(k0)[idx]);
                    } else {
                        if all_in {
                            assert(info_ids(keep@)[info_ids(keep@).len() - 1] == idv);
                        } else {
                            assert(!m[idv].tags.subset_of(q));
                        }
                    }
                }
            }
        }
        let pages_sorted = sort_infos(keep);
        proof {
            assert forall|id: Seq<char>|
                matched.contains(id) && m.contains_key(id) && #[trigger] m[id].tags.subset_of(
                    q,
                ) implies info_ids(pages_sorted@).contains(id) by {
                let j = choose|j: int|
                    0 <= j < info_ids(results.matching_pages@).len() && info_ids(
                        results.matching_pages@,
                    )[j] == id;
                assert(m[results.matching_pages@[j].id@].tags.subset_of(q));
                assert(info_ids(keep@).contains(id));
                let k3 = choose|k3: int| 0 <= k3 < keep@.len() && info_ids(keep@)[k3] == id;
                assert(keep@.contains(keep@[k3]));
                assert(pages_sorted@.contains(keep@[k3]));
                let k4 = choose|k4: int|
                    0 <= k4 < pages_sorted@.len() && pages_sorted@[k4] == keep@[k3];
                assert(info_ids(pages_sorted@)[k4] == id);
            }
            assert forall|k3: int| 0 <= k3 < pages_sorted@.len() implies matched.contains(
                #[trigger] pages_sorted@[k3].id@,
            ) && m.contains_key(pages_sorted@[k3].id@) && pages_sorted@[k3].title@ == m[
                pages_sorted@[k3].id@
            ].title && m[pages_sorted@[k3].id@].tags.subset_of(q) by {
                assert(keep@.contains(pages_sorted@[k3]));
                let k4 = choose|k4: int| 0 <= k4 < keep@.len() && keep@[k4] == pages_sorted@[k3];
            }
            assert forall|k3: int| 0 <= k3 < tags_sorted@.len() implies leftover_tag(
                m,
                matched,
                q,
                #[trigger] tags_sorted@[k3].0@,
            ) && tags_sorted@[k3].1 == carriers(m, matched, tags_sorted@[k3].0@).len() by {
                assert(entries@.contains(tags_sorted@[k3]));
                let k4 = choose|k4: int|
                    0 <= k4 < entries@.len() && entries@[k4] == tags_sorted@[k3];
                assert(entry_names(entries@)[k4] == tags_sorted@[k3].0@);
                assert(found.deep_view()[k4] == tags_sorted@[k3].0@);
            }
            assert forall|t: Seq<char>| leftover_tag(m, matched, q, t) implies entry_names(
                tags_sorted@,
            ).contains(t) by {
                let id = choose|id: Seq<char>| carriers(m, matched, t).contains(id);
                let j = choose|j: int|
                    0 <= j < info_ids(results.matching_pages@).len() && info_ids(
                        results.matching_pages@,
                    )[j] == id;
                assert(m[results.matching_pages@[j].id@].tags.contains(t));
                assert(found.deep_view().contains(t));
                let k3 = choose|k3: int|
                    0 <= k3 < found.deep_view().len() && found.deep_view()[k3] == t;
                assert(entry_names(entries@)[k3] == t);
                assert(entries@.contains(entries@[k3]));
                assert(tags_sorted@.contains(entries@[k3]));
                let k4 = choose|k4: int|
                    0 <= k4 < tags_sorted@.len() && tags_sorted@[k4] == entries@[k3];
                assert(entry_names(tags_sorted@)[k4] == t);
            }
        }
        CompactResults { tags: tags_sorted, pages: pages_sorted }
    }

    /// The page under `id`, straight from the store.
    pub fn get(&self, id: &String) -> (r: Result<Parsed, StoreError>)
        ensures
            match r {
                Ok(p) => self.pages().contains_key(id@) && p@ == self.pages()[id@] && p.wf(),
                Err(e) => !self.pages().contains_key(id@) && e is NotFound,
            },
    {
        self.store.get(id)
    }

    /// A snapshot of the known ids.
    pub fn iter(&self) -> (r: Result<Vec<String>, StoreError>)
        ensures
            match r {
                Ok(ids) => ids.deep_view().no_duplicates() && ids.deep_view().to_set()
                    =~= self.pages().dom(),
                Err(_) => false,
            },
    {
        self.store.iter()
    }
}

} // verus!
