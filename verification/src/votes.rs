//! The competitive mode: each model proposes an answer, votes for the best
//! proposal of another model, and the votes are tallied.

use vstd::prelude::*;
use crate::history::{ModelVote, PromptTemplates, VoteTally};
use crate::text::{
    chars_eq, chars_of, find_from, find_from_exec, split_char, split_char_exec, string_of, trim,
    trimmed,
};

verus! {

/// The views of a sequence of strings.
pub open spec fn views(v: Seq<String>) -> Seq<Seq<char>> {
    Seq::new(v.len(), |i: int| v[i]@)
}

/// `p` occurs somewhere in `s` (`str::contains`).
pub open spec fn contains_text(s: Seq<char>, p: Seq<char>) -> bool {
    find_from(s, p, 0) is Some
}

/// What `str::to_lowercase` gives for `s`.
pub uninterp spec fn lowercase(s: Seq<char>) -> Seq<char>;

/// The ASCII lowercase of a character; other characters are kept.
pub open spec fn ascii_lower(c: char) -> char {
    if 'A' <= c && c <= 'Z' {
        ((c as u32) + 32) as char
    } else {
        c
    }
}

/// `str::to_lowercase`: every character replaced by its lowercase mapping
/// from Unicode's tables. Its result is named; for an ASCII text it is
/// stated: `A` to `Z` become `a` to `z`, the rest stays.
#[verifier::external_body]
pub fn to_lowercase(s: &str) -> (r: String)
    ensures
        r@ == lowercase(s@),
        (forall|i: int| 0 <= i < s@.len() ==> (s@[i] as u32) < 128) ==> r@ == s@.map_values(
            |c: char| ascii_lower(c),
        ),
{
    s.to_lowercase()
}

/// The part of a model ID after its last `/`, such as `gpt-4o`.
pub open spec fn model_name(id: Seq<char>) -> Seq<char> {
    split_char(id, '/').last()
}

/// The first ID at or after `from` that the response names in full.
pub open spec fn first_named(response: Seq<char>, ids: Seq<Seq<char>>, from: int) -> Option<int>
    decreases ids.len() - from,
{
    if from < 0 || from >= ids.len() {
        None
    } else if contains_text(response, ids[from]) {
        Some(from)
    } else {
        first_named(response, ids, from + 1)
    }
}

/// The first ID at or after `from` whose model name, in lowercase, the
/// lowercase response contains.
pub open spec fn first_loosely_named(lower: Seq<char>, ids: Seq<Seq<char>>, from: int) -> Option<
    int,
>
    decreases ids.len() - from,
{
    if from < 0 || from >= ids.len() {
        None
    } else if contains_text(lower, lowercase(model_name(ids[from]))) {
        Some(from)
    } else {
        first_loosely_named(lower, ids, from + 1)
    }
}

/// The vote for `ids[i]`, which is void when a model names itself.
pub open spec fn vote_for(ids: Seq<Seq<char>>, i: int, voter: Seq<char>) -> Option<Seq<char>> {
    if ids[i] == voter {
        None
    } else {
        Some(ids[i])
    }
}

/// The model a voting response chooses: the first ID that the trimmed
/// response names in full, else the first whose model name it names in any
/// case; none when it names none, or when the chosen one is the voter.
pub open spec fn vote_choice(response: Seq<char>, voter: Seq<char>, ids: Seq<Seq<char>>) -> Option<
    Seq<char>,
> {
    let r = trim(response);
    match first_named(r, ids, 0) {
        Some(i) => vote_for(ids, i, voter),
        None => match first_loosely_named(lowercase(r), ids, 0) {
            Some(i) => vote_for(ids, i, voter),
            None => None,
        },
    }
}

proof fn lemma_first_named(response: Seq<char>, ids: Seq<Seq<char>>, from: int)
    requires
        0 <= from,
    ensures
        first_named(response, ids, from) matches Some(i) ==> from <= i < ids.len(),
    decreases ids.len() - from,
{
    if from < ids.len() && !contains_text(response, ids[from]) {
        lemma_first_named(response, ids, from + 1);
    }
}

proof fn lemma_first_loosely_named(lower: Seq<char>, ids: Seq<Seq<char>>, from: int)
    requires
        0 <= from,
    ensures
        first_loosely_named(lower, ids, from) matches Some(i) ==> from <= i < ids.len(),
    decreases ids.len() - from,
{
    if from < ids.len() && !contains_text(lower, lowercase(model_name(ids[from]))) {
        lemma_first_loosely_named(lower, ids, from + 1);
    }
}

/// A vote is for one of the candidates, and never for the voter.
pub proof fn lemma_vote_choice(response: Seq<char>, voter: Seq<char>, ids: Seq<Seq<char>>)
    ensures
        vote_choice(response, voter, ids) matches Some(x) ==> x != voter && ids.contains(x),
{
    let r = trim(response);
    lemma_first_named(r, ids, 0);
    lemma_first_loosely_named(lowercase(r), ids, 0);
    match first_named(r, ids, 0) {
        Some(i) => {
            assert(ids[i] == ids[i]);
        },
        None => match first_loosely_named(lowercase(r), ids, 0) {
            Some(i) => {
                assert(ids[i] == ids[i]);
            },
            None => {},
        },
    }
}

/// Reads which model a voting response chooses among `valid_model_ids`,
/// first by full ID, then by model name in any case; a model naming itself
/// casts no vote.
pub fn parse_vote(response: &str, voter_id: &str, valid_model_ids: &[String]) -> (r: Option<String>)
    ensures
        match r {
            Some(x) => vote_choice(response@, voter_id@, views(valid_model_ids@)) == Some(x@),
            None => vote_choice(response@, voter_id@, views(valid_model_ids@)) is None,
        },
        r matches Some(x) ==> x@ != voter_id@ && views(valid_model_ids@).contains(x@),
{
    proof {
        lemma_vote_choice(response@, voter_id@, views(valid_model_ids@));
    }
    let ghost ids = views(valid_model_ids@);
    let cs = chars_of(response);
    let t = trimmed(&cs, 0, cs.len());
    assert(cs@.subrange(0, cs@.len() as int) =~= cs@);
    let voter = chars_of(voter_id);
    let mut i: usize = 0;
    while i < valid_model_ids.len()
        invariant
            i <= valid_model_ids.len(),
            ids == views(valid_model_ids@),
            t@ == trim(response@),
            voter@ == voter_id@,
            first_named(t@, ids, 0) == first_named(t@, ids, i as int),
        decreases valid_model_ids.len() - i,
    {
        let id = chars_of(valid_model_ids[i].as_str());
        assert(id@ == ids[i as int]);
        if find_from_exec(&t, &id, 0).is_some() {
            if chars_eq(&id, &voter) {
                return None;
            }
            return Some(valid_model_ids[i].clone());
        }
        i = i + 1;
    }
    let lower = chars_of(to_lowercase(string_of(&t).as_str()).as_str());
    let mut i: usize = 0;
    while i < valid_model_ids.len()
        invariant
            i <= valid_model_ids.len(),
            ids == views(valid_model_ids@),
            t@ == trim(response@),
            voter@ == voter_id@,
            lower@ == lowercase(trim(response@)),
            first_named(t@, ids, 0) is None,
            first_loosely_named(lower@, ids, 0) == first_loosely_named(lower@, ids, i as int),
        decreases valid_model_ids.len() - i,
    {
        let id = chars_of(valid_model_ids[i].as_str());
        assert(id@ == ids[i as int]);
        let parts = split_char_exec(&id, '/');
        proof {
            crate::text::lemma_split_char_pieces(id@, '/');
        }
        let last = parts.len() - 1;
        assert(parts[last as int]@ == model_name(id@));
        let name = chars_of(to_lowercase(string_of(&parts[last]).as_str()).as_str());
        if find_from_exec(&lower, &name, 0).is_some() {
            if chars_eq(&id, &voter) {
                return None;
            }
            return Some(valid_model_ids[i].clone());
        }
        i = i + 1;
    }
    None
}

/// The voters, in order, whose vote went to `id`.
pub open spec fn voters_for(votes: Seq<ModelVote>, id: Seq<char>) -> Seq<Seq<char>>
    decreases votes.len(),
{
    if votes.len() == 0 {
        seq![]
    } else {
        let rest = voters_for(votes.drop_last(), id);
        match votes.last().voted_for {
            Some(v) => if v@ == id {
                rest.push(votes.last().voter_id@)
            } else {
                rest
            },
            None => rest,
        }
    }
}

/// The IDs in order of first appearance, each once.
pub open spec fn distinct_ids(ids: Seq<Seq<char>>) -> Seq<Seq<char>>
    decreases ids.len(),
{
    if ids.len() == 0 {
        seq![]
    } else {
        let d = distinct_ids(ids.drop_last());
        if d.contains(ids.last()) {
            d
        } else {
            d.push(ids.last())
        }
    }
}

/// The position of the first `x` in `s`.
pub open spec fn position(s: Seq<Seq<char>>, x: Seq<char>) -> int
    decreases s.len(),
{
    if s.len() == 0 || s[0] == x {
        0
    } else {
        1 + position(s.drop_first(), x)
    }
}

/// The tallies of `votes` over the models `model_ids`: one tally per model,
/// with every vote for it and its voters in order, ordered by vote count
/// from most to least, and among equal counts in the order the models were
/// given.
pub open spec fn is_tally_of(tallies: Seq<VoteTally>, votes: Seq<ModelVote>, model_ids: Seq<Seq<char>>) -> bool {
    let d = distinct_ids(model_ids);
    &&& tallies.len() == d.len()
    &&& forall|j: int| #![trigger d[j]] 0 <= j < d.len() ==> exists|i: int| 0 <= i < tallies.len() && #[trigger] tallies[i].model_id@ == d[j]
    &&& forall|i: int| 0 <= i < tallies.len() ==> {
        &&& d.contains(#[trigger] tallies[i].model_id@)
        &&& views(tallies[i].voters@) == voters_for(votes, tallies[i].model_id@)
        &&& tallies[i].vote_count == voters_for(votes, tallies[i].model_id@).len()
    }
    &&& forall|i: int, j: int| 0 <= i < j < tallies.len() ==> {
        ||| #[trigger] tallies[i].vote_count > #[trigger] tallies[j].vote_count
        ||| (tallies[i].vote_count == tallies[j].vote_count && position(d, tallies[i].model_id@) < position(d, tallies[j].model_id@))
    }
}

/// The winners of sorted tallies: the models with the most votes, if any
/// model got a vote.
pub open spec fn are_winners_of(winners: Seq<String>, tallies: Seq<VoteTally>) -> bool {
    &&& winners.len() <= tallies.len()
    &&& forall|i: int| 0 <= i < winners.len() ==> #[trigger] winners[i]@ == tallies[i].model_id@
    &&& forall|i: int| 0 <= i < tallies.len() ==> (i < winners.len() <==> (#[trigger] tallies[i].vote_count == tallies[0].vote_count && tallies[0].vote_count > 0))
}

proof fn lemma_distinct_ids(ids: Seq<Seq<char>>)
    ensures
        distinct_ids(ids).no_duplicates(),
        forall|x: Seq<char>| distinct_ids(ids).contains(x) <==> ids.contains(x),
    decreases ids.len(),
{
    if ids.len() > 0 {
        let pre = ids.drop_last();
        let l = ids.last();
        lemma_distinct_ids(pre);
        let d = distinct_ids(pre);
        assert forall|x: Seq<char>| pre.contains(x) implies ids.contains(x) by {
            let k = choose|k: int| 0 <= k < pre.len() && pre[k] == x;
            assert(ids[k] == x);
        }
        assert forall|x: Seq<char>| ids.contains(x) && x != l implies pre.contains(x) by {
            let k = choose|k: int| 0 <= k < ids.len() && ids[k] == x;
            assert(pre[k] == x);
        }
        assert(ids[ids.len() - 1] == l);
        if !d.contains(l) {
            let e = d.push(l);
            assert(e[d.len() as int] == l);
            assert forall|x: Seq<char>| e.contains(x) <==> d.contains(x) || x == l by {
                if d.contains(x) {
                    let k = choose|k: int| 0 <= k < d.len() && d[k] == x;
                    assert(e[k] == x);
                }
                if e.contains(x) && x != l {
                    let k = choose|k: int| 0 <= k < e.len() && e[k] == x;
                    assert(d[k] == x);
                }
            }
            assert forall|a: int, b: int| 0 <= a < e.len() && 0 <= b < e.len() && a != b implies e[a] != e[b] by {
                if a < d.len() && b < d.len() {
                    assert(e[a] == d[a] && e[b] == d[b]);
                } else if a < d.len() {
                    assert(e[a] == d[a]);
                } else if b < d.len() {
                    assert(e[b] == d[b]);
                }
            }
        }
    }
}

proof fn lemma_position(s: Seq<Seq<char>>, r: int)
    requires
        s.no_duplicates(),
        0 <= r < s.len(),
    ensures
        position(s, s[r]) == r,
    decreases s.len(),
{
    if r > 0 {
        assert(s[0] != s[r]);
        let t = s.drop_first();
        assert(t.no_duplicates()) by {
            assert forall|a: int, b: int| 0 <= a < t.len() && 0 <= b < t.len() && a != b implies t[a] != t[b] by {
                assert(t[a] == s[a + 1] && t[b] == s[b + 1]);
            }
        }
        lemma_position(t, r - 1);
    }
}

/// The vote counts of `tallies`, summed.
pub open spec fn tally_sum(tallies: Seq<VoteTally>) -> nat
    decreases tallies.len(),
{
    if tallies.len() == 0 {
        0
    } else {
        tally_sum(tallies.drop_last()) + tallies.last().vote_count as nat
    }
}

/// The votes for the models `d`, summed over the models.
pub open spec fn sum_counts(votes: Seq<ModelVote>, d: Seq<Seq<char>>) -> nat
    decreases d.len(),
{
    if d.len() == 0 {
        0
    } else {
        sum_counts(votes, d.drop_last()) + voters_for(votes, d.last()).len()
    }
}

/// The number of votes cast for one of the models `d`.
pub open spec fn votes_among(votes: Seq<ModelVote>, d: Seq<Seq<char>>) -> nat
    decreases votes.len(),
{
    if votes.len() == 0 {
        0
    } else {
        votes_among(votes.drop_last(), d) + match votes.last().voted_for {
            Some(v) => if d.contains(v@) {
                1nat
            } else {
                0nat
            },
            None => 0nat,
        }
    }
}

/// The models of `d` equal to `x`, counted.
spec fn occurrences(d: Seq<Seq<char>>, x: Seq<char>) -> nat
    decreases d.len(),
{
    if d.len() == 0 {
        0
    } else {
        occurrences(d.drop_last(), x) + if d.last() == x {
            1nat
        } else {
            0nat
        }
    }
}

proof fn lemma_occurrences(d: Seq<Seq<char>>, x: Seq<char>)
    requires
        d.no_duplicates(),
    ensures
        occurrences(d, x) == if d.contains(x) {
            1nat
        } else {
            0nat
        },
    decreases d.len(),
{
    if d.len() > 0 {
        let pre = d.drop_last();
        assert(pre.no_duplicates()) by {
            assert forall|a: int, b: int| 0 <= a < pre.len() && 0 <= b < pre.len() && a != b implies pre[a] != pre[b] by {
                assert(pre[a] == d[a] && pre[b] == d[b]);
            }
        }
        lemma_occurrences(pre, x);
        if pre.contains(x) {
            let k = choose|k: int| 0 <= k < pre.len() && pre[k] == x;
            assert(d[k] == x);
            assert(d.last() != x) by {
                assert(d[d.len() - 1] != d[k]);
            }
        }
        if d.contains(x) && !pre.contains(x) {
            let k = choose|k: int| 0 <= k < d.len() && d[k] == x;
            if k < d.len() - 1 {
                assert(pre[k] == x);
            }
        }
        if pre.contains(x) {
            let k = choose|k: int| 0 <= k < pre.len() && pre[k] == x;
            assert(d[k] == x);
        }
    }
}

/// One more vote adds to the count of the model it is for, if any.
proof fn lemma_sum_counts_step(votes: Seq<ModelVote>, d: Seq<Seq<char>>)
    requires
        votes.len() > 0,
    ensures
        sum_counts(votes, d) == sum_counts(votes.drop_last(), d) + match votes.last().voted_for {
            Some(v) => occurrences(d, v@),
            None => 0nat,
        },
    decreases d.len(),
{
    if d.len() > 0 {
        lemma_sum_counts_step(votes, d.drop_last());
    }
}

/// Every vote for one of the models is counted once: summed over the
/// models, the vote counts make the number of votes cast for one of them.
pub proof fn lemma_votes_conserved(votes: Seq<ModelVote>, model_ids: Seq<String>)
    ensures
        sum_counts(votes, distinct_ids(views(model_ids))) == votes_among(votes, distinct_ids(views(model_ids))),
    decreases votes.len(),
{
    let d = distinct_ids(views(model_ids));
    lemma_distinct_ids(views(model_ids));
    if votes.len() == 0 {
        lemma_sum_counts_empty(votes, d);
    } else {
        lemma_votes_conserved(votes.drop_last(), model_ids);
        lemma_sum_counts_step(votes, d);
        match votes.last().voted_for {
            Some(v) => lemma_occurrences(d, v@),
            None => {},
        }
    }
}

proof fn lemma_sum_counts_empty(votes: Seq<ModelVote>, d: Seq<Seq<char>>)
    requires
        votes.len() == 0,
    ensures
        sum_counts(votes, d) == 0,
    decreases d.len(),
{
    if d.len() > 0 {
        lemma_sum_counts_empty(votes, d.drop_last());
    }
}

proof fn lemma_tally_sum_insert(s: Seq<VoteTally>, p: int, x: VoteTally)
    requires
        0 <= p <= s.len(),
    ensures
        tally_sum(s.insert(p, x)) == tally_sum(s) + x.vote_count,
    decreases s.len(),
{
    if p < s.len() {
        lemma_tally_sum_insert(s.drop_last(), p, x);
        assert(s.insert(p, x).drop_last() =~= s.drop_last().insert(p, x));
    } else {
        assert(s.insert(p, x).drop_last() =~= s);
    }
}

/// Some tally has rank `q`.
spec fn rank_taken(ranks: Seq<int>, q: int) -> bool {
    exists|i: int| 0 <= i < ranks.len() && ranks[i] == q
}

/// Whether `x` is among `v`.
pub fn contains_string(v: &Vec<String>, x: &String) -> (r: bool)
    ensures
        r == views(v@).contains(x@),
{
    let xs = chars_of(x.as_str());
    let mut i: usize = 0;
    while i < v.len()
        invariant
            i <= v.len(),
            xs@ == x@,
            forall|k: int| 0 <= k < i ==> v@[k]@ != x@,
        decreases v.len() - i,
    {
        if chars_eq(&chars_of(v[i].as_str()), &xs) {
            assert(views(v@)[i as int] == x@);
            return true;
        }
        i = i + 1;
    }
    assert forall|k: int| 0 <= k < views(v@).len() implies views(v@)[k] != x@ by {
        assert(views(v@)[k] == v@[k]@);
    }
    false
}

/// The tally of the votes for `id`.
fn tally_for(votes: &[ModelVote], id: &String) -> (t: VoteTally)
    ensures
        t.model_id@ == id@,
        views(t.voters@) == voters_for(votes@, id@),
        t.vote_count == voters_for(votes@, id@).len(),
{
    let idc = chars_of(id.as_str());
    let mut voters: Vec<String> = Vec::new();
    let mut count: usize = 0;
    let mut k: usize = 0;
    assert(votes@.take(0) =~= Seq::<ModelVote>::empty());
    assert(views(voters@) =~= Seq::<Seq<char>>::empty());
    while k < votes.len()
        invariant
            k <= votes.len(),
            idc@ == id@,
            views(voters@) == voters_for(votes@.take(k as int), id@),
            count == voters@.len(),
            count <= k,
        decreases votes.len() - k,
    {
        assert(votes@.take(k + 1).drop_last() =~= votes@.take(k as int));
        let vote = &votes[k];
        match &vote.voted_for {
            Some(v) => {
                if chars_eq(&chars_of(v.as_str()), &idc) {
                    let ghost before = views(voters@);
                    voters.push(vote.voter_id.clone());
                    count = count + 1;
                    assert(views(voters@) =~= before.push(vote.voter_id@));
                }
            },
            None => {},
        }
        k = k + 1;
    }
    assert(votes@.take(votes.len() as int) =~= votes@);
    VoteTally { model_id: id.clone(), vote_count: count, voters }
}

/// Counts the votes for each model of `model_ids` (votes for others do not
/// count), orders the tallies from most to fewest votes, and names as
/// winners the models with the most votes, if any model got one.
pub fn compute_tallies(votes: &[ModelVote], model_ids: &[String]) -> (r: (Vec<VoteTally>, Vec<String>))
    ensures
        is_tally_of(r.0@, votes@, views(model_ids@)),
        are_winners_of(r.1@, r.0@),
        tally_sum(r.0@) == votes_among(votes@, distinct_ids(views(model_ids@))),
{
    // The models, each once, in the order given.
    let mut ids: Vec<String> = Vec::new();
    let mut k: usize = 0;
    assert(views(model_ids@).take(0) =~= Seq::<Seq<char>>::empty());
    assert(views(ids@) =~= Seq::<Seq<char>>::empty());
    while k < model_ids.len()
        invariant
            k <= model_ids.len(),
            views(ids@) == distinct_ids(views(model_ids@).take(k as int)),
        decreases model_ids.len() - k,
    {
        let ghost pre = views(model_ids@).take(k as int);
        assert(views(model_ids@).take(k + 1).drop_last() =~= pre);
        assert(views(model_ids@).take(k + 1).last() == model_ids@[k as int]@);
        if !contains_string(&ids, &model_ids[k]) {
            let ghost before = views(ids@);
            ids.push(model_ids[k].clone());
            assert(views(ids@) =~= before.push(model_ids@[k as int]@));
        }
        k = k + 1;
    }
    assert(views(model_ids@).take(model_ids.len() as int) =~= views(model_ids@));
    let ghost d = views(ids@);
    proof {
        lemma_distinct_ids(views(model_ids@));
    }
    // Insert each tally after those with as many votes or more.
    let mut tallies: Vec<VoteTally> = Vec::new();
    let ghost mut ranks: Seq<int> = seq![];
    let mut j: usize = 0;
    while j < ids.len()
        invariant
            j <= ids.len(),
            d == views(ids@),
            d == distinct_ids(views(model_ids@)),
            d.no_duplicates(),
            tallies.len() == ranks.len() == j,
            forall|i: int| 0 <= i < j ==> 0 <= #[trigger] ranks[i] < j,
            forall|i: int| 0 <= i < j ==> {
                &&& (#[trigger] tallies@[i]).model_id@ == d[ranks[i]]
                &&& views(tallies@[i].voters@) == voters_for(votes@, d[ranks[i]])
                &&& tallies@[i].vote_count == voters_for(votes@, d[ranks[i]]).len()
            },
            forall|q: int| 0 <= q < j ==> #[trigger] rank_taken(ranks, q),
            tally_sum(tallies@) == sum_counts(votes@, d.take(j as int)),
            forall|a: int, b: int| 0 <= a < b < j ==> {
                ||| #[trigger] tallies@[a].vote_count > #[trigger] tallies@[b].vote_count
                ||| (tallies@[a].vote_count == tallies@[b].vote_count && ranks[a] < ranks[b])
            },
        decreases ids.len() - j,
    {
        let t = tally_for(votes, &ids[j]);
        assert(t.model_id@ == d[j as int]);
        let mut p: usize = 0;
        while p < tallies.len() && tallies[p].vote_count >= t.vote_count
            invariant
                p <= tallies.len(),
                forall|i: int| 0 <= i < p ==> #[trigger] tallies@[i].vote_count >= t.vote_count,
            decreases tallies.len() - p,
        {
            p = p + 1;
        }
        let ghost old_t = tallies@;
        let ghost old_r = ranks;
        assert(forall|i: int| p <= i < old_t.len() ==> #[trigger] old_t[i].vote_count < t.vote_count) by {
            assert forall|i: int| p <= i < old_t.len() implies #[trigger] old_t[i].vote_count < t.vote_count by {
                if i > p {
                    assert(old_t[p as int].vote_count >= old_t[i].vote_count);
                }
            }
        }
        tallies.insert(p, t);
        proof {
            lemma_tally_sum_insert(old_t, p as int, t);
            assert(d.take(j + 1).drop_last() =~= d.take(j as int));
            ranks = old_r.insert(p as int, j as int);
            assert forall|q: int| 0 <= q < j + 1 implies #[trigger] rank_taken(ranks, q) by {
                if q == j {
                    assert(ranks[p as int] == q);
                } else {
                    assert(rank_taken(old_r, q));
                    let i0 = choose|i: int| 0 <= i < old_r.len() && #[trigger] old_r[i] == q;
                    if i0 < p {
                        assert(ranks[i0] == q);
                    } else {
                        assert(ranks[i0 + 1] == q);
                    }
                }
            }
        }
        j = j + 1;
    }
    proof {
        assert(d.take(j as int) =~= d);
        lemma_votes_conserved(votes@, model_ids@);
        assert forall|i: int| 0 <= i < tallies.len() implies position(d, tallies@[i].model_id@) == ranks[i] by {
            lemma_position(d, ranks[i]);
        }
        assert forall|q: int| #![trigger d[q]] 0 <= q < d.len() implies exists|i: int| 0 <= i < tallies.len() && #[trigger] tallies@[i].model_id@ == d[q] by {
            assert(rank_taken(ranks, q));
            let i0 = choose|i: int| 0 <= i < ranks.len() && #[trigger] ranks[i] == q;
            assert(tallies@[i0].model_id@ == d[q]);
        }
    }
    // The winners: a prefix of the sorted tallies.
    let mut winners: Vec<String> = Vec::new();
    if tallies.len() > 0 && tallies[0].vote_count > 0 {
        let max = tallies[0].vote_count;
        let mut i: usize = 0;
        while i < tallies.len() && tallies[i].vote_count == max
            invariant
                i <= tallies.len(),
                tallies.len() > 0,
                max == tallies@[0].vote_count,
                winners.len() == i,
                forall|w: int| 0 <= w < i ==> #[trigger] winners@[w]@ == tallies@[w].model_id@,
                forall|w: int| 0 <= w < i ==> #[trigger] tallies@[w].vote_count == max,
            decreases tallies.len() - i,
        {
            winners.push(tallies[i].model_id.clone());
            i = i + 1;
        }
        assert forall|w: int| i <= w < tallies.len() implies #[trigger] tallies@[w].vote_count != max by {
            assert(tallies@[i as int].vote_count != max);
            if w > i {
                assert(tallies@[i as int].vote_count >= tallies@[w].vote_count);
            }
        }
    }
    (tallies, winners)
}

/// The two prompts of the competitive mode that the user can edit.
#[derive(Clone, Copy, Debug, PartialEq, Eq, Structural)]
pub enum CompetitivePromptType {
    Proposal,
    Voting,
}

impl CompetitivePromptType {
    pub fn name(&self) -> (r: &'static str)
        ensures
            r@ == (match *self {
                CompetitivePromptType::Proposal => "Proposal"@,
                CompetitivePromptType::Voting => "Voting"@,
            }),
    {
        match self {
            CompetitivePromptType::Proposal => "Proposal",
            CompetitivePromptType::Voting => "Voting",
        }
    }

    pub fn description(&self) -> (r: &'static str)
        ensures
            r@ == (match *self {
                CompetitivePromptType::Proposal => "Prompt sent to models to generate their proposals"@,
                CompetitivePromptType::Voting => "Prompt sent to models to vote for the best proposal"@,
            }),
    {
        match self {
            CompetitivePromptType::Proposal => "Prompt sent to models to generate their proposals",
            CompetitivePromptType::Voting => "Prompt sent to models to vote for the best proposal",
        }
    }

    /// The placeholders that the prompt may hold.
    pub fn variables(&self) -> (r: &'static str)
        ensures
            r@ == (match *self {
                CompetitivePromptType::Proposal => "{user_question}"@,
                CompetitivePromptType::Voting => "{user_question}, {all_proposals}, {your_proposal}"@,
            }),
    {
        match self {
            CompetitivePromptType::Proposal => "{user_question}",
            CompetitivePromptType::Voting => "{user_question}, {all_proposals}, {your_proposal}",
        }
    }
}

impl Default for PromptTemplates {
    /// The prompts the competitive mode starts with.
    fn default() -> (t: Self)
        ensures
            t.proposal@ == "You are participating in a competitive problem-solving challenge with other AI models. Provide your best solution to this question:\n\n{user_question}"@,
            t.voting@ == "You are voting on the best solution among the proposals below. You CANNOT vote for your own response.\n\nUser Question: {user_question}\n\nAll Proposals:\n{all_proposals}\n\nYour Proposal:\n{your_proposal}\n\nVote for the BEST proposal by responding with ONLY the model ID of your choice (e.g., 'openai/gpt-4o'). Do not vote for yourself."@,
    {
        PromptTemplates {
            proposal: "You are participating in a competitive problem-solving challenge with other AI models. Provide your best solution to this question:\n\n{user_question}".to_owned(),
            voting: "You are voting on the best solution among the proposals below. You CANNOT vote for your own response.\n\nUser Question: {user_question}\n\nAll Proposals:\n{all_proposals}\n\nYour Proposal:\n{your_proposal}\n\nVote for the BEST proposal by responding with ONLY the model ID of your choice (e.g., 'openai/gpt-4o'). Do not vote for yourself.".to_owned(),
        }
    }
}

impl PromptTemplates {
    /// The prompt of the given type.
    pub fn get(&self, prompt_type: CompetitivePromptType) -> (r: String)
        ensures
            r@ == (match prompt_type {
                CompetitivePromptType::Proposal => self.proposal@,
                CompetitivePromptType::Voting => self.voting@,
            }),
    {
        match prompt_type {
            CompetitivePromptType::Proposal => self.proposal.clone(),
            CompetitivePromptType::Voting => self.voting.clone(),
        }
    }

    /// Replaces the prompt of the given type; the other one is kept.
    pub fn set(&mut self, prompt_type: CompetitivePromptType, value: String)
        ensures
            match prompt_type {
                CompetitivePromptType::Proposal => final(self).proposal == value && final(self).voting == old(self).voting,
                CompetitivePromptType::Voting => final(self).voting == value && final(self).proposal == old(self).proposal,
            },
    {
        match prompt_type {
            CompetitivePromptType::Proposal => self.proposal = value,
            CompetitivePromptType::Voting => self.voting = value,
        }
    }
}

/// What a set prompt reads back as: the value set for its type, the other
/// prompt as it was.
pub proof fn lemma_prompt_set_get(t: PromptTemplates, u: PromptTemplates, set_type: CompetitivePromptType, value: String, get_type: CompetitivePromptType)
    requires
        match set_type {
            CompetitivePromptType::Proposal => u.proposal == value && u.voting == t.voting,
            CompetitivePromptType::Voting => u.voting == value && u.proposal == t.proposal,
        },
    ensures
        (match get_type {
            CompetitivePromptType::Proposal => u.proposal@,
            CompetitivePromptType::Voting => u.voting@,
        }) == if get_type == set_type {
            value@
        } else {
            match get_type {
                CompetitivePromptType::Proposal => t.proposal@,
                CompetitivePromptType::Voting => t.voting@,
            }
        },
{
}

/// The phases of a competitive round.
#[derive(Clone, Copy, Debug, PartialEq, Eq, Structural)]
pub enum CompetitivePhase {
    Proposal,
    Voting,
    Tallying,
    Complete,
}

impl CompetitivePhase {
    pub fn name(&self) -> (r: &'static str)
        ensures
            r@ == (match *self {
                CompetitivePhase::Proposal => "Phase 1: Proposals"@,
                CompetitivePhase::Voting => "Phase 2: Voting"@,
                CompetitivePhase::Tallying => "Tallying Results"@,
                CompetitivePhase::Complete => "Complete"@,
            }),
    {
        match self {
            CompetitivePhase::Proposal => "Phase 1: Proposals",
            CompetitivePhase::Voting => "Phase 2: Voting",
            CompetitivePhase::Tallying => "Tallying Results",
            CompetitivePhase::Complete => "Complete",
        }
    }

    /// The CSS class of the phase's badge.
    pub fn badge_color(&self) -> (r: &'static str)
        ensures
            r@ == (match *self {
                CompetitivePhase::Proposal => "bg-blue-500"@,
                CompetitivePhase::Voting => "bg-purple-500"@,
                CompetitivePhase::Tallying => "bg-yellow-500"@,
                CompetitivePhase::Complete => "bg-gray-500"@,
            }),
    {
        match self {
            CompetitivePhase::Proposal => "bg-blue-500",
            CompetitivePhase::Voting => "bg-purple-500",
            CompetitivePhase::Tallying => "bg-yellow-500",
            CompetitivePhase::Complete => "bg-gray-500",
        }
    }

    /// The phase's place in the round, from 1.
    pub fn number(&self) -> (r: u8)
        ensures
            r == (match *self {
                CompetitivePhase::Proposal => 1u8,
                CompetitivePhase::Voting => 2u8,
                CompetitivePhase::Tallying => 3u8,
                CompetitivePhase::Complete => 4u8,
            }),
    {
        match self {
            CompetitivePhase::Proposal => 1,
            CompetitivePhase::Voting => 2,
            CompetitivePhase::Tallying => 3,
            CompetitivePhase::Complete => 4,
        }
    }
}

} // verus!
