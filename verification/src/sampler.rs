//! Seed-set expansion sampling: draw a bounded random subset of entities,
//! then keep every record that touches a drawn entity.

use crate::assoc::{contains_name, lemma_to_set_push, name_seq, name_set};
use crate::graph::pair_views;
use rand::seq::SliceRandom;
use rand::SeedableRng;
use vstd::prelude::*;

verus! {

/// One interaction record: a user identifier and a product identifier.
pub struct Review {
    pub reviewer_id: String,
    pub asin: String,
}

/// The entity names a record sequence mentions, two per record, in order.
pub open spec fn entity_names(rs: Seq<Review>) -> Seq<Seq<char>>
    decreases rs.len(),
{
    if rs.len() == 0 {
        Seq::empty()
    } else {
        entity_names(rs.drop_last()).push(rs.last().reviewer_id@).push(rs.last().asin@)
    }
}

/// Whether a record names a drawn entity at either endpoint.
pub open spec fn touches(r: Review, s: Set<Seq<char>>) -> bool {
    s.contains(r.reviewer_id@) || s.contains(r.asin@)
}

/// The name pairs of the records touching a drawn entity set, in record
/// order.
pub open spec fn selected_pairs(rs: Seq<Review>, s: Set<Seq<char>>) -> Seq<
    (Seq<char>, Seq<char>),
>
    decreases rs.len(),
{
    if rs.len() == 0 {
        Seq::empty()
    } else {
        let prev = selected_pairs(rs.drop_last(), s);
        if touches(rs.last(), s) {
            prev.push((rs.last().reviewer_id@, rs.last().asin@))
        } else {
            prev
        }
    }
}

/// Every selected pair is the name pair of some record.
pub proof fn lemma_selected_sub(rs: Seq<Review>, s: Set<Seq<char>>)
    ensures
        forall|t: int|
            0 <= t < selected_pairs(rs, s).len() ==> exists|i: int|
                0 <= i < rs.len() && #[trigger] selected_pairs(rs, s)[t] == (
                rs[i].reviewer_id@,
                rs[i].asin@,
                ),
    decreases rs.len(),
{
    if rs.len() > 0 {
        lemma_selected_sub(rs.drop_last(), s);
        let prev = selected_pairs(rs.drop_last(), s);
        assert forall|t: int|
            0 <= t < selected_pairs(rs, s).len() implies exists|i: int|
                0 <= i < rs.len() && #[trigger] selected_pairs(rs, s)[t] == (
                rs[i].reviewer_id@,
                rs[i].asin@,
                ) by {
            if t < prev.len() {
                let i = choose|i: int|
                    0 <= i < rs.drop_last().len() && #[trigger] prev[t] == (
                    rs.drop_last()[i].reviewer_id@,
                    rs.drop_last()[i].asin@,
                    );
                assert(rs[i] == rs.drop_last()[i]);
                assert(selected_pairs(rs, s)[t] == (rs[i].reviewer_id@, rs[i].asin@));
            } else {
                assert(selected_pairs(rs, s)[t] == (
                    rs[rs.len() - 1].reviewer_id@,
                    rs[rs.len() - 1].asin@,
                ));
            }
        }
    }
}

/// What holds of every sampling outcome: no more pairs than records, each
/// pair a record's pair, and the whole a selection by some drawn entity
/// subset of the demanded size.
pub open spec fn sample_outcome_ok(rs: Seq<Review>, k: nat, out: Seq<(String, String)>) -> bool {
    &&& out.len() <= rs.len()
    &&& (forall|t: int|
        0 <= t < out.len() ==> exists|i: int|
            0 <= i < rs.len() && #[trigger] pair_views(out)[t] == (
            rs[i].reviewer_id@,
            rs[i].asin@,
            ))
    &&& exists|s: Set<Seq<char>>|
        {
            &&& s.subset_of(entity_names(rs).to_set())
            &&& s.len() == vstd::math::min(k as int, entity_names(rs).to_set().len() as int)
            &&& #[trigger] selected_pairs(rs, s) == pair_views(out)
        }
}

/// The distinct entity names mentioned by the records, in first-mention
/// order.
pub fn unique_entities(reviews: &Vec<Review>) -> (r: Vec<String>)
    ensures
        name_seq(r@).no_duplicates(),
        name_set(r@) == entity_names(reviews@).to_set(),
{
    let mut out: Vec<String> = Vec::new();
    let mut i: usize = 0;
    while i < reviews.len()
        invariant
            i <= reviews@.len(),
            name_seq(out@).no_duplicates(),
            name_set(out@) == entity_names(reviews@.take(i as int)).to_set(),
        decreases reviews@.len() - i,
    {
        let ghost pre = out@;
        let a = &reviews[i].reviewer_id;
        if !contains_name(&out, a) {
            out.push(a.clone());
            proof {
                assert(name_seq(out@) =~= name_seq(pre).push(a@));
                lemma_to_set_push(name_seq(pre), a@);
                assert(name_seq(out@).no_duplicates());
            }
        } else {
            proof {
                assert(name_set(pre).insert(a@) =~= name_set(pre));
            }
        }
        let ghost mid = out@;
        proof {
            assert(name_set(mid) =~= name_set(pre).insert(a@));
        }
        let b = &reviews[i].asin;
        if !contains_name(&out, b) {
            out.push(b.clone());
            proof {
                assert(name_seq(out@) =~= name_seq(mid).push(b@));
                lemma_to_set_push(name_seq(mid), b@);
                assert(name_seq(out@).no_duplicates());
            }
        } else {
            proof {
                assert(name_set(mid).insert(b@) =~= name_set(mid));
            }
        }
        proof {
            assert(name_set(out@) =~= name_set(mid).insert(b@));
            let taken = reviews@.take(i + 1);
            assert(taken.drop_last() =~= reviews@.take(i as int));
            assert(taken.last() == reviews@[i as int]);
            assert(entity_names(taken) =~= entity_names(reviews@.take(i as int)).push(a@).push(
                b@,
            ));
            lemma_to_set_push(entity_names(reviews@.take(i as int)), a@);
            lemma_to_set_push(entity_names(reviews@.take(i as int)).push(a@), b@);
            assert(name_set(out@) =~= entity_names(taken).to_set());
        }
        i += 1;
    }
    proof {
        assert(reviews@.take(reviews@.len() as int) =~= reviews@);
    }
    out
}

/// The name pairs of the records touching a drawn entity, in record order.
pub fn filter_touching(reviews: &Vec<Review>, chosen: &Vec<String>) -> (r: Vec<(String, String)>)
    ensures
        pair_views(r@) == selected_pairs(reviews@, name_set(chosen@)),
        r@.len() <= reviews@.len(),
{
    let ghost s = name_set(chosen@);
    let mut out: Vec<(String, String)> = Vec::new();
    let mut i: usize = 0;
    while i < reviews.len()
        invariant
            s == name_set(chosen@),
            i <= reviews@.len(),
            out@.len() <= i,
            pair_views(out@) == selected_pairs(reviews@.take(i as int), s),
        decreases reviews@.len() - i,
    {
        let ghost pre = out@;
        let hit_a = contains_name(chosen, &reviews[i].reviewer_id);
        let hit_b = contains_name(chosen, &reviews[i].asin);
        if hit_a || hit_b {
            out.push((reviews[i].reviewer_id.clone(), reviews[i].asin.clone()));
            proof {
                assert(pair_views(out@) =~= pair_views(pre).push((
                    reviews@[i as int].reviewer_id@,
                    reviews@[i as int].asin@,
                )));
            }
        }
        proof {
            let taken = reviews@.take(i + 1);
            assert(taken.drop_last() =~= reviews@.take(i as int));
            assert(taken.last() == reviews@[i as int]);
            assert(pair_views(out@) =~= selected_pairs(taken, s));
        }
        i += 1;
    }
    proof {
        assert(reviews@.take(reviews@.len() as int) =~= reviews@);
    }
    out
}

/// Relies on rand's `SliceRandom::choose_multiple` with the thread-local
/// generator `rand::thread_rng`: it draws `min(k, ids.len())` elements,
/// without repetition, each from a distinct position of `ids`.
#[verifier::external_body]
fn choose_random_subset(ids: &Vec<String>, k: usize) -> (r: Vec<String>)
    ensures
        r@.len() == vstd::math::min(k as int, ids@.len() as int),
        forall|i: int| 0 <= i < r@.len() ==> name_seq(ids@).contains(#[trigger] name_seq(r@)[i]),
        name_seq(ids@).no_duplicates() ==> name_seq(r@).no_duplicates(),
{
    ids.as_slice().choose_multiple(&mut rand::thread_rng(), k).cloned().collect()
}

/// Relies on rand's `StdRng::seed_from_u64` and
/// `SliceRandom::choose_multiple`: a deterministic generator seeded from
/// `seed` draws `min(k, ids.len())` elements of `ids`, without repetition.
#[verifier::external_body]
fn choose_seeded_subset(ids: &Vec<String>, k: usize, seed: u64) -> (r: Vec<String>)
    ensures
        r@.len() == vstd::math::min(k as int, ids@.len() as int),
        forall|i: int| 0 <= i < r@.len() ==> name_seq(ids@).contains(#[trigger] name_seq(r@)[i]),
        name_seq(ids@).no_duplicates() ==> name_seq(r@).no_duplicates(),
{
    let mut rng = rand::rngs::StdRng::seed_from_u64(seed);
    ids.as_slice().choose_multiple(&mut rng, k).cloned().collect()
}

/// The selection that a drawn entity subset determines, stated for any
/// draw meeting the generator's guarantees.
proof fn lemma_sample_outcome(
    rs: Seq<Review>,
    k: nat,
    ids: Seq<String>,
    chosen: Seq<String>,
    out: Seq<(String, String)>,
)
    requires
        name_seq(ids).no_duplicates(),
        name_set(ids) == entity_names(rs).to_set(),
        chosen.len() == vstd::math::min(k as int, ids.len() as int),
        forall|i: int| 0 <= i < chosen.len() ==> name_seq(ids).contains(#[trigger] name_seq(chosen)[i]),
        name_seq(chosen).no_duplicates(),
        pair_views(out) == selected_pairs(rs, name_set(chosen)),
        out.len() <= rs.len(),
    ensures
        sample_outcome_ok(rs, k, out),
{
    let s = name_set(chosen);
    lemma_selected_sub(rs, s);
    assert forall|t: int| 0 <= t < out.len() implies exists|i: int|
        0 <= i < rs.len() && #[trigger] pair_views(out)[t] == (
        rs[i].reviewer_id@,
        rs[i].asin@,
        ) by {
        assert(pair_views(out).len() == out.len());
        assert(selected_pairs(rs, s)[t] == pair_views(out)[t]);
    }
    name_seq(ids).unique_seq_to_set();
    name_seq(chosen).unique_seq_to_set();
    assert(s.subset_of(entity_names(rs).to_set())) by {
        assert forall|x: Seq<char>| s.contains(x) implies entity_names(rs).to_set().contains(
            x,
        ) by {
            let i = choose|i: int| 0 <= i < name_seq(chosen).len() && name_seq(chosen)[i] == x;
            assert(name_seq(ids).contains(name_seq(chosen)[i]));
            assert(name_set(ids).contains(x));
        }
    }
    assert(s.len() == chosen.len());
    assert(entity_names(rs).to_set().len() == ids.len());
    assert(selected_pairs(rs, s) == pair_views(out));
}

/// Seed-set expansion sampling with a fresh random draw: selects at most
/// `target_size` distinct entities uniformly, without replacement, and
/// returns every record pair touching a selected entity. The result's
/// length follows from how many records the drawn entities touch, not
/// from `target_size`; two calls draw independently.
pub fn sample_reviews(reviews: &Vec<Review>, target_size: usize) -> (r: Vec<(String, String)>)
    ensures
        sample_outcome_ok(reviews@, target_size as nat, r@),
{
    let ids = unique_entities(reviews);
    let chosen = choose_random_subset(&ids, target_size);
    let out = filter_touching(reviews, &chosen);
    proof {
        lemma_sample_outcome(reviews@, target_size as nat, ids@, chosen@, out@);
    }
    out
}

/// Seed-set expansion sampling from a deterministic generator seeded with
/// `seed`: the same records and seed always select the same entities.
pub fn sample_reviews_seeded(reviews: &Vec<Review>, target_size: usize, seed: u64) -> (r: Vec<
    (String, String),
>)
    ensures
        sample_outcome_ok(reviews@, target_size as nat, r@),
{
    let ids = unique_entities(reviews);
    let chosen = choose_seeded_subset(&ids, target_size, seed);
    let out = filter_touching(reviews, &chosen);
    proof {
        lemma_sample_outcome(reviews@, target_size as nat, ids@, chosen@, out@);
    }
    out
}

} // verus!
