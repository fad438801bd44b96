//! Search orchestration: result groups, concept filtering, merge by
//! lowercased name, score ordering and the cascade decisions.

use vstd::prelude::*;
use crate::concepts::Concept;
use crate::index::{spec_index_lookup, ExactMatchIndex};
use crate::seqs::{
    lemma_count_two_at, lemma_insert_to_multiset, lemma_remove_first_to_multiset,
    lemma_two_indices,
};
use crate::text::{
    ascii_eq_nocase, eq_ignore_ascii_case, lemma_texts_push, lower_of, lowercase, parse_i32,
    spec_parse_i32, spec_trim, texts, trim_text,
};

verus! {

/// How many nearest neighbours the semantic fallback requests: three times the
/// caller's limit, capped at 150.
pub fn fallback_search_limit(limit: u64) -> (r: u64)
    ensures
        r == if 3 * (limit as int) < 150 { 3 * (limit as int) } else { 150int },
{
    if limit < 50 {
        3 * limit
    } else {
        150
    }
}

/// One row of search output: a display name, its lowercased form (the merge
/// key), the similarity score as an order-preserving integer key, and the
/// concepts sharing that name.
pub struct ResultGroup {
    pub concept_name: String,
    pub concept_name_lower: String,
    pub score: u64,
    pub concepts: Vec<Concept>,
}

/// The caller's filters: each list constrains its field case-insensitively;
/// the standard-concept filter matches exactly, or matches an absent value
/// when it is the empty string. An absent filter imposes nothing.
pub struct SearchFilters {
    pub vocabulary_id: Option<Vec<String>>,
    pub standard_concept: Option<String>,
    pub domain_id: Option<Vec<String>>,
    pub concept_class_id: Option<Vec<String>>,
}

/// Whether some string of the list equals `t` up to ASCII case.
pub open spec fn nocase_in(list: Seq<String>, t: Seq<char>) -> bool {
    exists|j: int| 0 <= j < list.len() && ascii_eq_nocase(list[j]@, t)
}

/// The standard-concept filter: exact match, or an absent value against the
/// empty-string filter.
pub open spec fn std_concept_ok(filter: Option<String>, value: Option<String>) -> bool {
    match filter {
        None => true,
        Some(f) => match value {
            Some(sc) => sc@ == f@,
            None => f@.len() == 0,
        },
    }
}

/// A concept survives iff it matches every filter the caller supplied.
pub open spec fn concept_matches(c: Concept, f: SearchFilters) -> bool {
    &&& match f.vocabulary_id {
        None => true,
        Some(l) => nocase_in(l@, c.vocabulary_id@),
    }
    &&& std_concept_ok(f.standard_concept, c.standard_concept)
    &&& match f.domain_id {
        None => true,
        Some(l) => nocase_in(l@, c.domain_id@),
    }
    &&& match f.concept_class_id {
        None => true,
        Some(l) => nocase_in(l@, c.concept_class_id@),
    }
}

/// The filter predicate as a function, for stating filtered sequences.
pub open spec fn matches_pred(f: SearchFilters) -> spec_fn(Concept) -> bool {
    |c: Concept| concept_matches(c, f)
}

fn any_nocase(list: &Vec<String>, t: &String) -> (b: bool)
    ensures
        b == nocase_in(list@, t@),
{
    let mut i: usize = 0;
    while i < list.len()
        invariant
            i <= list.len(),
            forall|k: int| 0 <= k < i ==> !ascii_eq_nocase(list@[k]@, t@),
        decreases list.len() - i,
    {
        if eq_ignore_ascii_case(list[i].as_str(), t.as_str()) {
            proof {
                assert(ascii_eq_nocase(list@[i as int]@, t@));
            }
            return true;
        }
        i += 1;
    }
    false
}

fn concept_matches_exec(c: &Concept, f: &SearchFilters) -> (b: bool)
    ensures
        b == concept_matches(*c, *f),
{
    match &f.vocabulary_id {
        Some(l) => {
            if !any_nocase(l, &c.vocabulary_id) {
                return false;
            }
        },
        None => {},
    }
    match &f.standard_concept {
        Some(fs) => {
            match &c.standard_concept {
                Some(sc) => {
                    if !(*sc == *fs) {
                        return false;
                    }
                },
                None => {
                    if !fs.as_str().is_empty() {
                        return false;
                    }
                },
            }
        },
        None => {},
    }
    match &f.domain_id {
        Some(l) => {
            if !any_nocase(l, &c.domain_id) {
                return false;
            }
        },
        None => {},
    }
    match &f.concept_class_id {
        Some(l) => {
            if !any_nocase(l, &c.concept_class_id) {
                return false;
            }
        },
        None => {},
    }
    true
}

/// Keep exactly the concepts that match every supplied filter, in order.
pub fn filter_concepts(concepts: Vec<Concept>, filters: &SearchFilters) -> (r: Vec<Concept>)
    ensures
        r@ == concepts@.filter(matches_pred(*filters)),
{
    let ghost orig = concepts@;
    let ghost p = matches_pred(*filters);
    let mut rest = concepts;
    let mut r: Vec<Concept> = Vec::new();
    let ghost mut i: int = 0;
    proof {
        assert(orig.take(0) =~= Seq::<Concept>::empty());
        reveal_with_fuel(Seq::filter, 1);
        assert(Seq::<Concept>::empty().filter(p) =~= Seq::<Concept>::empty());
        assert(rest@ =~= orig.skip(0));
    }
    while rest.len() > 0
        invariant
            0 <= i,
            i + rest@.len() == orig.len(),
            rest@ == orig.skip(i),
            p == matches_pred(*filters),
            r@ == orig.take(i).filter(p),
        decreases rest@.len(),
    {
        proof {
            assert(orig.skip(i).remove(0) =~= orig.skip(i + 1));
            assert(orig.skip(i)[0] == orig[i]);
        }
        let c = rest.remove(0);
        let keep = concept_matches_exec(&c, filters);
        if keep {
            r.push(c);
        }
        proof {
            crate::analysis::lemma_filter_push(orig.take(i), p, orig[i]);
            assert(orig.take(i + 1) =~= orig.take(i).push(orig[i]));
            i = i + 1;
        }
    }
    proof {
        assert(orig.take(orig.len() as int) =~= orig);
    }
    r
}

/// A well-formed response list: no two groups share a lowercased name, and
/// no group's concept list is empty.
pub open spec fn groups_wf(s: Seq<ResultGroup>) -> bool {
    &&& forall|i: int, j: int|
        0 <= i < j < s.len() ==> s[i].concept_name_lower@ != s[j].concept_name_lower@
    &&& forall|i: int| 0 <= i < s.len() ==> s[i].concepts@.len() > 0
}

/// Whether some group of the list carries this lowercased name.
pub open spec fn has_name(s: Seq<ResultGroup>, t: Seq<char>) -> bool {
    exists|i: int| 0 <= i < s.len() && s[i].concept_name_lower@ == t
}

/// How one merge step relates the new list to the old one and the incoming
/// group: either the name was absent and the group was appended, or the
/// matching group absorbed the incoming concepts, first-seen name and score
/// kept.
pub open spec fn merged_one(acc: Seq<ResultGroup>, g: ResultGroup, r: Seq<ResultGroup>) -> bool {
    if !has_name(acc, g.concept_name_lower@) {
        r == acc.push(g)
    } else {
        exists|j: int|
            {
                &&& 0 <= j < acc.len()
                &&& acc[j].concept_name_lower@ == g.concept_name_lower@
                &&& r.len() == acc.len()
                &&& (forall|k: int| 0 <= k < acc.len() && k != j ==> r[k] == acc[k])
                &&& r[j].concept_name@ == acc[j].concept_name@
                &&& r[j].concept_name_lower@ == acc[j].concept_name_lower@
                &&& r[j].score == acc[j].score
                &&& r[j].concepts@ == acc[j].concepts@ + g.concepts@
            }
    }
}

fn merge_group_into(acc: &mut Vec<ResultGroup>, g: ResultGroup)
    requires
        groups_wf(old(acc)@),
        g.concepts@.len() > 0,
    ensures
        groups_wf(final(acc)@),
        merged_one(old(acc)@, g, final(acc)@),
        forall|t: Seq<char>|
            has_name(final(acc)@, t) <==> has_name(old(acc)@, t) || t == g.concept_name_lower@,
{
    let ghost g0 = g;
    let mut j: usize = 0;
    while j < acc.len()
        invariant
            j <= acc.len(),
            acc == old(acc),
            groups_wf(acc@),
            forall|k: int| 0 <= k < j ==> acc@[k].concept_name_lower@ != g.concept_name_lower@,
            g == g0,
            g0.concepts@.len() > 0,
        decreases acc.len() - j,
    {
        if acc[j].concept_name_lower == g.concept_name_lower {
            let ghost before = acc@;
            let mut grp = acc.remove(j);
            let mut incoming = g;
            grp.concepts.append(&mut incoming.concepts);
            acc.insert(j, grp);
            proof {
                before.remove_ensures(j as int);
                before.remove(j as int).insert_ensures(j as int, grp);
                assert(acc@.len() == before.len());
                assert(forall|k: int| 0 <= k < j ==> acc@[k] == before[k]);
                assert forall|k: int| j < k < before.len() implies acc@[k] == before[k] by {
                    assert(acc@[k] == before.remove(j as int)[k - 1]);
                }
                assert(acc@[j as int] == grp);
                assert(merged_one(before, g0, acc@)) by {
                    assert(before[j as int].concept_name_lower@ == g0.concept_name_lower@);
                    assert(has_name(before, g0.concept_name_lower@));
                }
                assert(grp.concept_name_lower@ == before[j as int].concept_name_lower@);
                assert(g0.concepts@.len() > 0);
                assert(grp.concepts@ == before[j as int].concepts@ + g0.concepts@);
                assert(grp.concepts@.len() > 0);
                assert forall|a: int, b: int| 0 <= a < b < acc@.len() implies acc@[
                    a
                ].concept_name_lower@ != acc@[b].concept_name_lower@ by {
                    if a == j {
                        assert(acc@[a] == grp);
                    } else {
                        assert(acc@[a] == before[a]);
                    }
                    if b == j {
                        assert(acc@[b] == grp);
                    } else {
                        assert(acc@[b] == before[b]);
                    }
                    assert(acc@[a].concept_name_lower@ == before[a].concept_name_lower@);
                    assert(acc@[b].concept_name_lower@ == before[b].concept_name_lower@);
                }
                assert forall|k: int| 0 <= k < acc@.len() implies acc@[k].concepts@.len() > 0 by {
                    if k == j {
                        assert(acc@[k] == grp);
                    } else {
                        assert(acc@[k] == before[k]);
                    }
                }
                assert(groups_wf(acc@));
                assert forall|t: Seq<char>|
                    has_name(acc@, t) <==> has_name(before, t) || t == g0.concept_name_lower@ by {
                    if has_name(acc@, t) {
                        let i = choose|i: int| 0 <= i < acc@.len() && acc@[i].concept_name_lower@
                            == t;
                        assert(before[i].concept_name_lower@ == t);
                    }
                    if has_name(before, t) {
                        let i = choose|i: int|
                            0 <= i < before.len() && before[i].concept_name_lower@ == t;
                        assert(acc@[i].concept_name_lower@ == t);
                    }
                    if t == g0.concept_name_lower@ {
                        assert(acc@[j as int].concept_name_lower@ == t);
                    }
                }
            }
            return ;
        }
        j += 1;
    }
    let ghost before = acc@;
    acc.push(g);
    proof {
        assert(!has_name(before, g0.concept_name_lower@));
        assert(forall|k: int| 0 <= k < before.len() ==> acc@[k] == before[k]);
        assert(acc@[before.len() as int] == g0);
        assert(groups_wf(acc@));
        assert forall|t: Seq<char>|
            has_name(acc@, t) <==> has_name(before, t) || t == g0.concept_name_lower@ by {
            if has_name(acc@, t) {
                let i = choose|i: int| 0 <= i < acc@.len() && acc@[i].concept_name_lower@ == t;
                if i < before.len() {
                    assert(before[i].concept_name_lower@ == t);
                }
            }
            if has_name(before, t) {
                let i = choose|i: int| 0 <= i < before.len() && before[i].concept_name_lower@ == t;
                assert(acc@[i].concept_name_lower@ == t);
            }
        }
    }
}

/// Whether a group would survive filtering: some of its concepts match.
pub open spec fn group_survives(g: ResultGroup, f: SearchFilters) -> bool {
    g.concepts@.filter(matches_pred(f)).len() > 0
}

/// The group's identity — display name, lowercased name and score — is the
/// one already accumulated under that name, or, for a fresh name, that of a
/// surviving incoming group: merging keeps the first-seen name and score.
pub open spec fn group_rooted(
    acc: Seq<ResultGroup>,
    inc: Seq<ResultGroup>,
    f: SearchFilters,
    g: ResultGroup,
) -> bool {
    ||| exists|j: int|
        0 <= j < acc.len() && (#[trigger] acc[j]).concept_name_lower@ == g.concept_name_lower@
            && acc[j].concept_name@ == g.concept_name@ && acc[j].score == g.score
    ||| (!has_name(acc, g.concept_name_lower@) && exists|i: int|
        0 <= i < inc.len() && (#[trigger] inc[i]).concept_name_lower@ == g.concept_name_lower@
            && inc[i].concept_name@ == g.concept_name@ && inc[i].score == g.score
            && group_survives(inc[i], f))
}

/// Some surviving group of `src` carries exactly this identity: the same
/// lowercased name, display name and score.
pub open spec fn identity_from(src: Seq<ResultGroup>, f: SearchFilters, g: ResultGroup) -> bool {
    exists|i: int|
        0 <= i < src.len() && group_survives(#[trigger] src[i], f) && src[i].concept_name_lower@
            == g.concept_name_lower@ && src[i].concept_name@ == g.concept_name@ && src[i].score
            == g.score
}

/// Some group of `src` survives filtering and carries this lowercased
/// name.
pub open spec fn from_surviving(src: Seq<ResultGroup>, f: SearchFilters, t: Seq<char>) -> bool {
    exists|i: int|
        0 <= i < src.len() && group_survives(#[trigger] src[i], f) && src[i].concept_name_lower@
            == t
}

/// Every concept of every group matches the filters.
pub open spec fn all_pass(s: Seq<ResultGroup>, f: SearchFilters) -> bool {
    forall|i: int, k: int|
        0 <= i < s.len() && 0 <= k < s[i].concepts@.len() ==> concept_matches(
            #[trigger] s[i].concepts@[k],
            f,
        )
}

/// Filter each incoming group's concepts, drop the groups this empties, and
/// merge the survivors into the accumulated list by lowercased name.
pub fn accumulate_groups(acc: Vec<ResultGroup>, incoming: Vec<ResultGroup>, filters: &SearchFilters) -> (r: Vec<ResultGroup>)
    requires
        groups_wf(acc@),
    ensures
        groups_wf(r@),
        forall|t: Seq<char>|
            has_name(r@, t) <==> has_name(acc@, t) || (exists|i: int|
                0 <= i < incoming@.len() && group_survives(#[trigger] incoming@[i], *filters)
                    && incoming@[i].concept_name_lower@ == t),
        all_pass(acc@, *filters) ==> all_pass(r@, *filters),
        forall|k: int|
            0 <= k < r@.len() ==> group_rooted(acc@, incoming@, *filters, #[trigger] r@[k]),
{
    broadcast use vstd::seq_lib::group_seq_properties;

    let ghost inc0 = incoming@;
    let ghost f = *filters;
    let mut r = acc;
    let mut rest = incoming;
    let ghost mut i: int = 0;
    proof {
        assert(rest@ =~= inc0.skip(0));
    }
    while rest.len() > 0
        invariant
            0 <= i,
            i + rest@.len() == inc0.len(),
            rest@ == inc0.skip(i),
            f == *filters,
            groups_wf(r@),
            forall|t: Seq<char>|
                has_name(r@, t) <==> has_name(acc@, t) || (exists|ii: int|
                    0 <= ii < i && group_survives(#[trigger] inc0[ii], f)
                        && inc0[ii].concept_name_lower@ == t),
            all_pass(acc@, f) ==> all_pass(r@, f),
            forall|k: int| 0 <= k < r@.len() ==> group_rooted(acc@, inc0, f, #[trigger] r@[k]),
        decreases rest@.len(),
    {
        proof {
            assert(inc0.skip(i).remove(0) =~= inc0.skip(i + 1));
            assert(inc0.skip(i)[0] == inc0[i]);
        }
        let mut g = rest.remove(0);
        let filtered = filter_concepts(g.concepts, filters);
        g = ResultGroup {
            concept_name: g.concept_name,
            concept_name_lower: g.concept_name_lower,
            score: g.score,
            concepts: filtered,
        };
        let ghost r_before = r@;
        let ghost g_snapshot = g;
        if g.concepts.len() > 0 {
            proof {
                assert(group_survives(inc0[i], f));
            }
            merge_group_into(&mut r, g);
            proof {
                assert forall|k: int| 0 <= k < r@.len() implies group_rooted(
                    acc@,
                    inc0,
                    f,
                    #[trigger] r@[k],
                ) by {
                    if !has_name(r_before, g_snapshot.concept_name_lower@) {
                        assert(r@ == r_before.push(g_snapshot));
                        if k < r_before.len() {
                            assert(r@[k] == r_before[k]);
                        } else {
                            assert(r@[k] == g_snapshot);
                            assert(g_snapshot.concept_name_lower@
                                == inc0[i].concept_name_lower@);
                            assert(g_snapshot.concept_name@ == inc0[i].concept_name@);
                            assert(g_snapshot.score == inc0[i].score);
                            assert(!has_name(acc@, g_snapshot.concept_name_lower@));
                        }
                    } else {
                        let j = choose|j: int|
                            {
                                &&& 0 <= j < r_before.len()
                                &&& r_before[j].concept_name_lower@
                                    == g_snapshot.concept_name_lower@
                                &&& r@.len() == r_before.len()
                                &&& (forall|kk: int|
                                    0 <= kk < r_before.len() && kk != j ==> r@[kk]
                                        == r_before[kk])
                                &&& r@[j].concept_name@ == r_before[j].concept_name@
                                &&& r@[j].concept_name_lower@
                                    == r_before[j].concept_name_lower@
                                &&& r@[j].score == r_before[j].score
                                &&& r@[j].concepts@ == r_before[j].concepts@
                                    + g_snapshot.concepts@
                            };
                        if k == j {
                            assert(group_rooted(acc@, inc0, f, r_before[j]));
                        } else {
                            assert(r@[k] == r_before[k]);
                        }
                    }
                }
                assert(all_pass(acc@, f) ==> all_pass(r@, f)) by {
                    if all_pass(acc@, f) {
                        assert forall|ii: int, k: int|
                            0 <= ii < r@.len() && 0 <= k < r@[ii].concepts@.len() implies
                            concept_matches(#[trigger] r@[ii].concepts@[k], f) by {
                            if !has_name(r_before, g.concept_name_lower@) {
                                if ii < r_before.len() {
                                } else {
                                    assert(r@[ii] == g);
                                    assert(g.concepts@ == inc0[i].concepts@.filter(
                                        matches_pred(f),
                                    ));
                                    if 0 <= k < g.concepts@.len() {
                                        inc0[i].concepts@.lemma_filter_pred(
                                            matches_pred(f),
                                            k,
                                        );
                                    }
                                }
                            } else {
                                let j = choose|j: int|
                                    {
                                        &&& 0 <= j < r_before.len()
                                        &&& r_before[j].concept_name_lower@
                                            == g.concept_name_lower@
                                        &&& r@.len() == r_before.len()
                                        &&& (forall|kk: int|
                                            0 <= kk < r_before.len() && kk != j ==> r@[kk]
                                                == r_before[kk])
                                        &&& r@[j].concepts@ == r_before[j].concepts@ + g.concepts@
                                    };
                                if ii == j {
                                    if k < r_before[j].concepts@.len() {
                                        assert(r@[j].concepts@[k] == r_before[j].concepts@[k]);
                                    } else {
                                        assert(r@[j].concepts@[k] == g.concepts@[k
                                            - r_before[j].concepts@.len()]);
                                        inc0[i].concepts@.lemma_filter_pred(
                                            matches_pred(f),
                                            k - r_before[j].concepts@.len(),
                                        );
                                    }
                                }
                            }
                        }
                    }
                }
            }
        } else {
            proof {
                assert(!group_survives(inc0[i], f)) by {
                    assert(inc0[i].concepts@.filter(matches_pred(f)).len() == 0);
                }
            }
        }
        proof {
            assert forall|t: Seq<char>|
                has_name(r@, t) <==> has_name(acc@, t) || (exists|ii: int|
                    0 <= ii < i + 1 && group_survives(#[trigger] inc0[ii], f)
                        && inc0[ii].concept_name_lower@ == t) by {
                if has_name(r@, t) && !has_name(acc@, t) {
                    if exists|ii: int|
                        0 <= ii < i && group_survives(#[trigger] inc0[ii], f)
                            && inc0[ii].concept_name_lower@ == t {
                        let ii = choose|ii: int|
                            0 <= ii < i && group_survives(#[trigger] inc0[ii], f)
                                && inc0[ii].concept_name_lower@ == t;
                        assert(0 <= ii < i + 1 && group_survives(inc0[ii], f)
                            && inc0[ii].concept_name_lower@ == t);
                    } else {
                        assert(t == inc0[i].concept_name_lower@ && group_survives(
                            inc0[i],
                            f,
                        ));
                    }
                }
            }
        }
        proof {
            i = i + 1;
        }
    }
    proof {
        assert(inc0.skip(inc0.len() as int).len() == 0);
    }
    r
}

/// Scores never increase along the response list.
pub open spec fn sorted_desc_groups(s: Seq<ResultGroup>) -> bool {
    forall|i: int, j: int| 0 <= i < j < s.len() ==> s[i].score >= s[j].score
}

fn sort_groups_desc(v: Vec<ResultGroup>) -> (r: Vec<ResultGroup>)
    ensures
        sorted_desc_groups(r@),
        r@.to_multiset() == v@.to_multiset(),
{
    broadcast use vstd::seq_lib::group_to_multiset_ensures;
    broadcast use vstd::multiset::group_multiset_axioms;

    let mut rest = v;
    let mut r: Vec<ResultGroup> = Vec::new();
    proof {
        assert(r@.to_multiset().add(rest@.to_multiset()) =~= v@.to_multiset());
    }
    while rest.len() > 0
        invariant
            sorted_desc_groups(r@),
            r@.to_multiset().add(rest@.to_multiset()) =~= v@.to_multiset(),
        decreases rest@.len(),
    {
        let ghost r_before = r@;
        proof {
            lemma_remove_first_to_multiset(rest@);
        }
        let g = rest.remove(0);
        let mut pos: usize = 0;
        while pos < r.len() && r[pos].score >= g.score
            invariant
                pos <= r.len(),
                r@ == r_before,
                forall|k: int| 0 <= k < pos ==> r@[k].score >= g.score,
            decreases r.len() - pos,
        {
            pos += 1;
        }
        proof {
            lemma_insert_to_multiset(r@, pos as int, g);
            r@.insert_ensures(pos as int, g);
        }
        r.insert(pos, g);
        proof {
            assert(sorted_desc_groups(r@)) by {
                assert(forall|k: int| pos < k < r@.len() ==> r@[k] == r_before[k - 1]);
                assert(forall|k: int|
                    pos <= k < r_before.len() ==> r_before[k].score <= g.score) by {
                    if pos < r_before.len() {
                        assert(r_before[pos as int].score < g.score);
                        assert(forall|k: int|
                            pos < k < r_before.len() ==> #[trigger] r_before[k].score
                                <= r_before[pos as int].score);
                    }
                }
            }
            assert(r@.to_multiset().add(rest@.to_multiset()) =~= v@.to_multiset());
        }
    }
    proof {
        assert(rest@.to_multiset() =~= Seq::<ResultGroup>::empty().to_multiset());
        assert(r@.to_multiset().add(rest@.to_multiset()) =~= r@.to_multiset());
    }
    r
}

proof fn lemma_wf_groups_multiset(a: Seq<ResultGroup>, b: Seq<ResultGroup>)
    requires
        a.to_multiset() == b.to_multiset(),
        groups_wf(a),
    ensures
        groups_wf(b),
{
    broadcast use vstd::seq_lib::group_to_multiset_ensures;
    broadcast use vstd::multiset::group_multiset_axioms;

    assert forall|k: int| 0 <= k < b.len() implies b[k].concepts@.len() > 0 by {
        assert(b.contains(b[k]));
        assert(a.to_multiset().count(b[k]) > 0);
        assert(a.contains(b[k]));
        let i = choose|i: int| 0 <= i < a.len() && a[i] == b[k];
        assert(a[i].concepts@.len() > 0);
    }
    assert forall|i: int, j: int| 0 <= i < j < b.len() implies b[i].concept_name_lower@
        != b[j].concept_name_lower@ by {
        if b[i].concept_name_lower@ == b[j].concept_name_lower@ {
            if b[i] == b[j] {
                lemma_count_two_at(b, i, j);
                assert(a.to_multiset().count(b[i]) >= 2);
                lemma_two_indices(a, b[i]);
                let (x, y) = choose|x: int, y: int|
                    0 <= x < y < a.len() && a[x] == b[i] && a[y] == b[i];
                assert(a[x].concept_name_lower@ != a[y].concept_name_lower@);
            } else {
                assert(b.contains(b[i]) && b.contains(b[j]));
                assert(a.contains(b[i]) && a.contains(b[j]));
                let x = choose|x: int| 0 <= x < a.len() && a[x] == b[i];
                let y = choose|y: int| 0 <= y < a.len() && a[y] == b[j];
                assert(x != y);
                assert(a[x].concept_name_lower@ != a[y].concept_name_lower@);
            }
        }
    }
}

/// Sort a well-formed response list by score, best first, and cut it to the
/// caller's limit. Every returned group is one of the input groups.
pub fn finalize_response(groups: Vec<ResultGroup>, limit: usize) -> (r: Vec<ResultGroup>)
    requires
        groups_wf(groups@),
    ensures
        groups_wf(r@),
        sorted_desc_groups(r@),
        r@.len() <= limit,
        r@.len() == if groups@.len() <= limit {
            groups@.len() as int
        } else {
            limit as int
        },
        forall|k: int| 0 <= k < r@.len() ==> groups@.to_multiset().count(#[trigger] r@[k]) > 0,
        groups@.len() <= limit ==> forall|t: Seq<char>| has_name(r@, t) <==> has_name(groups@, t),
{
    broadcast use vstd::seq_lib::group_to_multiset_ensures;

    let ghost orig = groups@;
    let sorted = sort_groups_desc(groups);
    proof {
        lemma_wf_groups_multiset(orig, sorted@);
        assert(sorted@.to_multiset().len() == sorted@.len());
        assert(orig.to_multiset().len() == orig.len());
    }
    let mut r = sorted;
    let ghost whole = r@;
    r.truncate(limit);
    proof {
        if whole.len() > limit {
            assert(r@ =~= whole.subrange(0, limit as int));
        }
        assert forall|k: int| 0 <= k < r@.len() implies orig.to_multiset().count(
            #[trigger] r@[k],
        ) > 0 by {
            assert(r@[k] == whole[k]);
            assert(whole.contains(whole[k]));
            assert(whole.to_multiset().count(whole[k]) > 0);
        }
        assert(groups_wf(r@)) by {
            assert(forall|i: int| 0 <= i < r@.len() ==> r@[i] == whole[i]);
        }
        if orig.len() <= limit {
            assert(r@ == whole);
            assert forall|t: Seq<char>| has_name(r@, t) <==> has_name(orig, t) by {
                if has_name(r@, t) {
                    let k = choose|k: int| 0 <= k < r@.len() && r@[k].concept_name_lower@ == t;
                    assert(whole.contains(whole[k]));
                    assert(orig.to_multiset().count(whole[k]) > 0);
                    assert(orig.contains(whole[k]));
                    let j = choose|j: int| 0 <= j < orig.len() && orig[j] == whole[k];
                    assert(orig[j].concept_name_lower@ == t);
                }
                if has_name(orig, t) {
                    let j = choose|j: int| 0 <= j < orig.len() && orig[j].concept_name_lower@ == t;
                    assert(orig.contains(orig[j]));
                    assert(whole.to_multiset().count(orig[j]) > 0);
                    assert(whole.contains(orig[j]));
                    let k = choose|k: int| 0 <= k < whole.len() && whole[k] == orig[j];
                    assert(r@[k].concept_name_lower@ == t);
                }
            }
        }
    }
    r
}

/// The relational-lookup key for a query: numeric queries resolve by
/// identifier, the rest by text.
pub enum LookupKey {
    ById(i32),
    ByText(String),
}

/// The first decision of the cascade: a cache hit goes straight to
/// expansion with the cached point identifiers; a miss asks the relational
/// store for candidate names.
pub enum SearchStep {
    Expand(Vec<String>),
    Relational(LookupKey),
}

fn clone_string_vec(v: &Vec<String>) -> (r: Vec<String>)
    ensures
        texts(r@) == texts(v@),
{
    let mut r: Vec<String> = Vec::new();
    proof {
        assert(texts(r@) =~= texts(v@).take(0));
    }
    let mut i: usize = 0;
    while i < v.len()
        invariant
            i <= v.len(),
            texts(r@) == texts(v@).take(i as int),
        decreases v.len() - i,
    {
        let ghost before = r@;
        r.push(v[i].clone());
        proof {
            lemma_texts_push(before, r@.last());
            assert(texts(r@) =~= texts(v@).take(i as int + 1));
        }
        i += 1;
    }
    proof {
        assert(texts(v@).take(v@.len() as int) =~= texts(v@));
    }
    r
}

/// Begin one search: trim and lowercase the query and look it up in the
/// exact-match index. A hit hands back the cached point identifiers for
/// expansion; a miss says how the relational store is to be asked.
pub fn start_search(concept_index: &ExactMatchIndex, query: &str) -> (r: SearchStep)
    ensures
        ({
            let t = spec_trim(query@);
            match spec_index_lookup(concept_index.entries@, lower_of(t)) {
                Some(ids) => r matches SearchStep::Expand(points) && texts(points@) == texts(ids),
                None => r matches SearchStep::Relational(key) && match key {
                    LookupKey::ById(x) => spec_parse_i32(t) == Some(x),
                    LookupKey::ByText(s) => spec_parse_i32(t) is None && s@ == t,
                },
            }
        }),
{
    let trimmed = trim_text(query);
    let lower = lowercase(trimmed);
    match concept_index.lookup(&lower) {
        Some(ids) => SearchStep::Expand(clone_string_vec(ids)),
        None => {
            match parse_i32(trimmed) {
                Some(x) => SearchStep::Relational(LookupKey::ById(x)),
                None => SearchStep::Relational(LookupKey::ByText(trimmed.to_owned())),
            }
        },
    }
}

/// How one candidate name resolves: its cached point identifiers, or the
/// lowercased name the vector index is to be scanned for.
pub enum NameResolution {
    Cached(Vec<String>),
    NeedsScan(String),
}

/// Resolve each relational candidate name, in order: a name cached in the
/// exact-match index yields its point identifiers; the rest are handed back
/// lowercased for an attribute scan of the vector index.
pub fn resolve_candidate_names(concept_index: &ExactMatchIndex, names: &Vec<String>) -> (r: Vec<
    NameResolution,
>)
    ensures
        r@.len() == names@.len(),
        forall|i: int|
            0 <= i < names@.len() ==> match spec_index_lookup(
                concept_index.entries@,
                lower_of(names@[i]@),
            ) {
                Some(ids) => (#[trigger] r@[i]) matches NameResolution::Cached(v) && texts(v@)
                    == texts(ids),
                None => r@[i] matches NameResolution::NeedsScan(s) && s@ == lower_of(names@[i]@),
            },
{
    let mut r: Vec<NameResolution> = Vec::new();
    let mut i: usize = 0;
    while i < names.len()
        invariant
            i <= names.len(),
            r@.len() == i,
            forall|k: int|
                0 <= k < i ==> match spec_index_lookup(
                    concept_index.entries@,
                    lower_of(names@[k]@),
                ) {
                    Some(ids) => (#[trigger] r@[k]) matches NameResolution::Cached(v) && texts(v@)
                        == texts(ids),
                    None => r@[k] matches NameResolution::NeedsScan(s) && s@ == lower_of(
                        names@[k]@,
                    ),
                },
        decreases names.len() - i,
    {
        let lower = lowercase(names[i].as_str());
        let ghost before = r@;
        match concept_index.lookup(&lower) {
            Some(ids) => {
                r.push(NameResolution::Cached(clone_string_vec(ids)));
            },
            None => {
                r.push(NameResolution::NeedsScan(lower));
            },
        }
        proof {
            assert(forall|k: int| 0 <= k < before.len() ==> r@[k] == before[k]);
        }
        i += 1;
    }
    r
}

/// Each candidate name resolved correctly against the index: cached names
/// carry their point identifiers, the rest the lowercased name to scan for.
pub open spec fn resolutions_ok(
    entries: Seq<crate::index::IndexEntry>,
    names: Seq<String>,
    r: Seq<NameResolution>,
) -> bool {
    &&& r.len() == names.len()
    &&& forall|i: int|
        0 <= i < names.len() ==> match spec_index_lookup(entries, lower_of(names[i]@)) {
            Some(ids) => (#[trigger] r[i]) matches NameResolution::Cached(v) && texts(v@) == texts(
                ids,
            ),
            None => r[i] matches NameResolution::NeedsScan(s) && s@ == lower_of(names[i]@),
        }
}

/// The second decision of the cascade, after the relational store answered:
/// no candidate names means the semantic fallback runs and returns directly,
/// with its neighbour count fixed here; otherwise every candidate name is
/// resolved against the exact-match index and expansion follows.
pub enum RelationalStep {
    Fallback { search_limit: u64 },
    Resolve(Vec<NameResolution>),
}

/// Decide what follows the relational lookup.
pub fn after_relational(
    concept_index: &ExactMatchIndex,
    candidate_names: &Vec<String>,
    limit: u64,
) -> (r: RelationalStep)
    ensures
        candidate_names@.len() == 0 ==> (r matches RelationalStep::Fallback { search_limit }
            && search_limit == (if 3 * (limit as int) < 150 {
            3 * (limit as int)
        } else {
            150int
        })),
        candidate_names@.len() > 0 ==> (r matches RelationalStep::Resolve(res) && resolutions_ok(
            concept_index.entries@,
            candidate_names@,
            res@,
        )),
{
    if candidate_names.len() == 0 {
        RelationalStep::Fallback { search_limit: fallback_search_limit(limit) }
    } else {
        let resolutions = resolve_candidate_names(concept_index, candidate_names);
        proof {
            assert(resolutions_ok(concept_index.entries@, candidate_names@, resolutions@));
        }
        RelationalStep::Resolve(resolutions)
    }
}

/// The semantic fallback response: each neighbour group is filtered,
/// emptied groups are dropped, the rest merge by lowercased name, and the
/// result is ranked by score and cut to the limit.
pub fn fallback_results(neighbors: Vec<ResultGroup>, filters: &SearchFilters, limit: usize) -> (r:
    Vec<ResultGroup>)
    ensures
        groups_wf(r@),
        sorted_desc_groups(r@),
        r@.len() <= limit,
        all_pass(r@, *filters),
        forall|k: int|
            0 <= k < r@.len() ==> from_surviving(
                neighbors@,
                *filters,
                (#[trigger] r@[k]).concept_name_lower@,
            ),
        forall|k: int|
            0 <= k < r@.len() ==> identity_from(neighbors@, *filters, #[trigger] r@[k]),
        r@.len() == limit || (forall|t: Seq<char>|
            from_surviving(neighbors@, *filters, t) ==> has_name(r@, t)),
{
    broadcast use vstd::seq_lib::group_to_multiset_ensures;

    let empty: Vec<ResultGroup> = Vec::new();
    let ghost e0 = empty@;
    proof {
        assert(groups_wf(empty@));
        assert(all_pass(empty@, *filters));
        assert(e0 =~= Seq::<ResultGroup>::empty());
    }
    let merged = accumulate_groups(empty, neighbors, filters);
    let ghost m0 = merged@;
    let r = finalize_response(merged, limit);
    proof {
        if m0.len() <= limit {
            assert forall|t: Seq<char>|
                from_surviving(neighbors@, *filters, t) implies has_name(r@, t) by {
                let ii = choose|ii: int|
                    0 <= ii < neighbors@.len() && group_survives(
                        #[trigger] neighbors@[ii],
                        *filters,
                    ) && neighbors@[ii].concept_name_lower@ == t;
                assert(group_survives(neighbors@[ii], *filters));
                assert(!has_name(e0, t));
                assert(has_name(m0, t));
                assert(has_name(r@, t));
            }
        } else {
            assert(r@.len() == limit);
        }
        assert forall|k: int| 0 <= k < r@.len() implies from_surviving(
            neighbors@,
            *filters,
            (#[trigger] r@[k]).concept_name_lower@,
        ) && identity_from(neighbors@, *filters, #[trigger] r@[k]) by {
            assert(m0.to_multiset().count(r@[k]) > 0);
            assert(m0.contains(r@[k]));
            let j = choose|j: int| 0 <= j < m0.len() && m0[j] == r@[k];
            let t = r@[k].concept_name_lower@;
            assert(m0[j].concept_name_lower@ == t);
            assert(has_name(m0, t));
            assert(e0.len() == 0);
            assert(!has_name(e0, t));
            let ii = choose|ii: int|
                0 <= ii < neighbors@.len() && group_survives(#[trigger] neighbors@[ii], *filters)
                    && neighbors@[ii].concept_name_lower@ == t;
            assert(group_survives(neighbors@[ii], *filters));
            assert(from_surviving(neighbors@, *filters, t));
            assert(group_rooted(e0, neighbors@, *filters, m0[j]));
            let iw = choose|iw: int|
                0 <= iw < neighbors@.len() && group_survives(#[trigger] neighbors@[iw], *filters)
                    && neighbors@[iw].concept_name_lower@ == m0[j].concept_name_lower@
                    && neighbors@[iw].concept_name@ == m0[j].concept_name@
                    && neighbors@[iw].score == m0[j].score;
            assert(group_survives(neighbors@[iw], *filters));
            assert(identity_from(neighbors@, *filters, r@[k]));
        }
        assert forall|k: int, c: int|
            0 <= k < r@.len() && 0 <= c < r@[k].concepts@.len() implies concept_matches(
            #[trigger] r@[k].concepts@[c],
            *filters,
        ) by {
            assert(m0.to_multiset().count(r@[k]) > 0);
            assert(m0.contains(r@[k]));
            let j = choose|j: int| 0 <= j < m0.len() && m0[j] == r@[k];
            assert(concept_matches(m0[j].concepts@[c], *filters));
        }
    }
    r
}

/// The expansion response: the directly fetched groups merge first, then
/// the recommend neighbours against the accumulated list; filtering,
/// ranking and the limit work as in the fallback.
pub fn expansion_results(
    fetched: Vec<ResultGroup>,
    neighbors: Vec<ResultGroup>,
    filters: &SearchFilters,
    limit: usize,
) -> (r: Vec<ResultGroup>)
    ensures
        groups_wf(r@),
        sorted_desc_groups(r@),
        r@.len() <= limit,
        all_pass(r@, *filters),
        forall|k: int|
            0 <= k < r@.len() ==> from_surviving(
                fetched@,
                *filters,
                (#[trigger] r@[k]).concept_name_lower@,
            ) || from_surviving(neighbors@, *filters, r@[k].concept_name_lower@),
        forall|k: int|
            0 <= k < r@.len() ==> identity_from(fetched@, *filters, #[trigger] r@[k])
                || identity_from(neighbors@, *filters, r@[k]),
        r@.len() == limit || (forall|t: Seq<char>|
            from_surviving(fetched@, *filters, t) || from_surviving(neighbors@, *filters, t)
                ==> has_name(r@, t)),
        forall|k: int|
            0 <= k < r@.len() && from_surviving(
                fetched@,
                *filters,
                (#[trigger] r@[k]).concept_name_lower@,
            ) ==> identity_from(fetched@, *filters, r@[k]),
{
    broadcast use vstd::seq_lib::group_to_multiset_ensures;

    let empty: Vec<ResultGroup> = Vec::new();
    let ghost e0 = empty@;
    proof {
        assert(groups_wf(empty@));
        assert(all_pass(empty@, *filters));
    }
    let first = accumulate_groups(empty, fetched, filters);
    let ghost f1 = first@;
    let merged = accumulate_groups(first, neighbors, filters);
    let ghost m0 = merged@;
    let r = finalize_response(merged, limit);
    proof {
        if m0.len() <= limit {
            assert forall|t: Seq<char>|
                from_surviving(fetched@, *filters, t) || from_surviving(neighbors@, *filters, t)
                    implies has_name(r@, t) by {
                assert(!has_name(e0, t));
                if from_surviving(fetched@, *filters, t) {
                    let ii = choose|ii: int|
                        0 <= ii < fetched@.len() && group_survives(
                            #[trigger] fetched@[ii],
                            *filters,
                        ) && fetched@[ii].concept_name_lower@ == t;
                    assert(group_survives(fetched@[ii], *filters));
                    assert(has_name(f1, t));
                    assert(has_name(m0, t));
                } else {
                    let ii = choose|ii: int|
                        0 <= ii < neighbors@.len() && group_survives(
                            #[trigger] neighbors@[ii],
                            *filters,
                        ) && neighbors@[ii].concept_name_lower@ == t;
                    assert(group_survives(neighbors@[ii], *filters));
                    assert(has_name(m0, t));
                }
                assert(has_name(r@, t));
            }
        } else {
            assert(r@.len() == limit);
        }
        assert forall|k: int|
            0 <= k < r@.len() && from_surviving(
                fetched@,
                *filters,
                (#[trigger] r@[k]).concept_name_lower@,
            ) implies identity_from(fetched@, *filters, r@[k]) by {
            assert(m0.to_multiset().count(r@[k]) > 0);
            assert(m0.contains(r@[k]));
            let j = choose|j: int| 0 <= j < m0.len() && m0[j] == r@[k];
            let t = r@[k].concept_name_lower@;
            assert(m0[j].concept_name_lower@ == t);
            let iv = choose|iv: int|
                0 <= iv < fetched@.len() && group_survives(#[trigger] fetched@[iv], *filters)
                    && fetched@[iv].concept_name_lower@ == t;
            assert(group_survives(fetched@[iv], *filters));
            assert(!has_name(e0, t));
            assert(has_name(f1, t));
            assert(group_rooted(f1, neighbors@, *filters, m0[j]));
            let jj = choose|jj: int|
                0 <= jj < f1.len() && (#[trigger] f1[jj]).concept_name_lower@
                    == m0[j].concept_name_lower@ && f1[jj].concept_name@ == m0[j].concept_name@
                    && f1[jj].score == m0[j].score;
            assert(group_rooted(e0, fetched@, *filters, f1[jj]));
            assert(e0.len() == 0);
            let iw = choose|iw: int|
                0 <= iw < fetched@.len() && group_survives(#[trigger] fetched@[iw], *filters)
                    && fetched@[iw].concept_name_lower@ == f1[jj].concept_name_lower@
                    && fetched@[iw].concept_name@ == f1[jj].concept_name@
                    && fetched@[iw].score == f1[jj].score;
            assert(group_survives(fetched@[iw], *filters));
            assert(identity_from(fetched@, *filters, r@[k]));
        }
        assert forall|k: int| 0 <= k < r@.len() implies from_surviving(
            fetched@,
            *filters,
            (#[trigger] r@[k]).concept_name_lower@,
        ) || from_surviving(neighbors@, *filters, r@[k].concept_name_lower@) by {
            assert(m0.to_multiset().count(r@[k]) > 0);
            assert(m0.contains(r@[k]));
            let j = choose|j: int| 0 <= j < m0.len() && m0[j] == r@[k];
            let t = r@[k].concept_name_lower@;
            assert(m0[j].concept_name_lower@ == t);
            assert(has_name(m0, t));
            assert(e0.len() == 0);
            assert(!has_name(e0, t));
            if has_name(f1, t) {
                let ii = choose|ii: int|
                    0 <= ii < fetched@.len() && group_survives(#[trigger] fetched@[ii], *filters)
                        && fetched@[ii].concept_name_lower@ == t;
                assert(group_survives(fetched@[ii], *filters));
                assert(from_surviving(fetched@, *filters, t));
            } else {
                let ii = choose|ii: int|
                    0 <= ii < neighbors@.len() && group_survives(
                        #[trigger] neighbors@[ii],
                        *filters,
                    ) && neighbors@[ii].concept_name_lower@ == t;
                assert(group_survives(neighbors@[ii], *filters));
                assert(from_surviving(neighbors@, *filters, t));
            }
        }
        assert forall|k: int| 0 <= k < r@.len() implies identity_from(
            fetched@,
            *filters,
            #[trigger] r@[k],
        ) || identity_from(neighbors@, *filters, r@[k]) by {
            assert(m0.to_multiset().count(r@[k]) > 0);
            assert(m0.contains(r@[k]));
            let j = choose|j: int| 0 <= j < m0.len() && m0[j] == r@[k];
            assert(group_rooted(f1, neighbors@, *filters, m0[j]));
            if exists|jj: int|
                0 <= jj < f1.len() && (#[trigger] f1[jj]).concept_name_lower@
                    == m0[j].concept_name_lower@ && f1[jj].concept_name@ == m0[j].concept_name@
                    && f1[jj].score == m0[j].score {
                let jj = choose|jj: int|
                    0 <= jj < f1.len() && (#[trigger] f1[jj]).concept_name_lower@
                        == m0[j].concept_name_lower@ && f1[jj].concept_name@
                        == m0[j].concept_name@ && f1[jj].score == m0[j].score;
                assert(group_rooted(e0, fetched@, *filters, f1[jj]));
                assert(e0.len() == 0);
                let iw = choose|iw: int|
                    0 <= iw < fetched@.len() && group_survives(#[trigger] fetched@[iw], *filters)
                        && fetched@[iw].concept_name_lower@ == f1[jj].concept_name_lower@
                        && fetched@[iw].concept_name@ == f1[jj].concept_name@
                        && fetched@[iw].score == f1[jj].score;
                assert(group_survives(fetched@[iw], *filters));
                assert(identity_from(fetched@, *filters, r@[k]));
            } else {
                let iw = choose|iw: int|
                    0 <= iw < neighbors@.len() && group_survives(
                        #[trigger] neighbors@[iw],
                        *filters,
                    ) && neighbors@[iw].concept_name_lower@ == m0[j].concept_name_lower@
                        && neighbors@[iw].concept_name@ == m0[j].concept_name@
                        && neighbors@[iw].score == m0[j].score;
                assert(group_survives(neighbors@[iw], *filters));
                assert(identity_from(neighbors@, *filters, r@[k]));
            }
        }
        assert forall|k: int, c: int|
            0 <= k < r@.len() && 0 <= c < r@[k].concepts@.len() implies concept_matches(
            #[trigger] r@[k].concepts@[c],
            *filters,
        ) by {
            assert(m0.to_multiset().count(r@[k]) > 0);
            assert(m0.contains(r@[k]));
            let j = choose|j: int| 0 <= j < m0.len() && m0[j] == r@[k];
            assert(concept_matches(m0[j].concepts@[c], *filters));
        }
    }
    r
}

} // verus!


