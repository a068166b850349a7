//! The list of saved sessions shown in the sidebar, built from the session
//! files found on disk.

use vstd::prelude::*;
use crate::history::{ChatHistory, SessionData, empty_history_for_mode, history_is_empty, history_mode};
use crate::session_names::{parse_name, session_id_of, strip_json};
use crate::text::{chars_eq, chars_of, concat, ends_with_exec, parse_u64, parse_u64_exec, slice_of, string_of};
use crate::types::{ChatMode, ChatSession, chat_mode_name};

verus! {

/// What the list shows of a session: ID, title, mode and timestamp.
pub open spec fn fields_of(s: ChatSession) -> (Seq<char>, Seq<char>, ChatMode, Seq<char>) {
    (s.id@, s.title@, s.mode, s.timestamp@)
}

/// A file among `entries` has the session ID `id`.
pub open spec fn seen_before(entries: Seq<(String, Option<ChatSession>)>, id: Seq<char>) -> bool {
    exists|k: int| 0 <= k < entries.len() && strip_json(entries[k].0@) == id
}

/// The sessions of the files `entries`, in the order found: a file whose
/// content was read gives its session under the file's ID; one that could
/// not be read gives what its name holds, if it has the shape of a session
/// file name; a second file with the same ID gives nothing.
pub open spec fn listed(entries: Seq<(String, Option<ChatSession>)>) -> Seq<
    (Seq<char>, Seq<char>, ChatMode, Seq<char>),
>
    decreases entries.len(),
{
    if entries.len() == 0 {
        seq![]
    } else {
        let pre = entries.drop_last();
        let prev = listed(pre);
        let (name, loaded) = entries.last();
        let id = strip_json(name@);
        if seen_before(pre, id) {
            prev
        } else {
            match loaded {
                Some(s) => prev.push((id, s.title@, s.mode, s.timestamp@)),
                None => match parse_name(name@) {
                    Some((mode, timestamp, title)) => prev.push((id, title, mode, timestamp)),
                    None => prev,
                },
            }
        }
    }
}

/// The number a timestamp reads as, 0 when it reads as none.
pub open spec fn timestamp_key(timestamp: Seq<char>) -> int {
    match parse_u64(timestamp) {
        Some(n) => n as int,
        None => 0,
    }
}

/// Some position of `r` comes from position `q`.
pub open spec fn taken(perm: Seq<int>, q: int) -> bool {
    exists|i: int| 0 <= i < perm.len() && perm[i] == q
}

/// `r` is `g` ordered by timestamp from newest to oldest, where `r[i]` was
/// `g[perm[i]]`; sessions with equal timestamps keep their order.
pub open spec fn sorted_from(r: Seq<ChatSession>, g: Seq<(Seq<char>, Seq<char>, ChatMode, Seq<char>)>, perm: Seq<int>) -> bool {
    &&& perm.len() == r.len() == g.len()
    &&& forall|i: int| 0 <= i < r.len() ==> 0 <= #[trigger] perm[i] < g.len() && fields_of(r[i]) == g[perm[i]]
    &&& forall|q: int| 0 <= q < g.len() ==> #[trigger] taken(perm, q)
    &&& forall|i: int, j: int| 0 <= i < j < r.len() ==> {
        ||| timestamp_key(#[trigger] r[i].timestamp@) > timestamp_key(#[trigger] r[j].timestamp@)
        ||| (timestamp_key(r[i].timestamp@) == timestamp_key(r[j].timestamp@) && perm[i] < perm[j])
    }
}

/// Each session of the listing comes from a file with its ID, and no two
/// share an ID.
pub proof fn lemma_listed_ids(entries: Seq<(String, Option<ChatSession>)>)
    ensures
        forall|q: int| 0 <= q < listed(entries).len() ==> seen_before(entries, #[trigger] listed(entries)[q].0),
        forall|a: int, b: int| 0 <= a < b < listed(entries).len() ==> #[trigger] listed(entries)[a].0 != #[trigger] listed(entries)[b].0,
    decreases entries.len(),
{
    if entries.len() > 0 {
        let pre = entries.drop_last();
        lemma_listed_ids(pre);
        let prev = listed(pre);
        let g = listed(entries);
        assert forall|q: int| 0 <= q < prev.len() implies seen_before(entries, #[trigger] prev[q].0) by {
            let k = choose|k: int| 0 <= k < pre.len() && strip_json(pre[k].0@) == prev[q].0;
            assert(entries[k] == pre[k]);
        }
        if g.len() > prev.len() {
            let id = strip_json(entries.last().0@);
            assert(g[prev.len() as int].0 == id);
            assert(seen_before(entries, id)) by {
                assert(strip_json(entries[entries.len() - 1].0@) == id);
            }
            assert forall|q: int| 0 <= q < prev.len() implies prev[q].0 != id by {
                assert(seen_before(pre, prev[q].0));
            }
            assert forall|q: int| 0 <= q < g.len() implies seen_before(entries, #[trigger] g[q].0) by {
                if q < prev.len() {
                    assert(g[q] == prev[q]);
                }
            }
            assert forall|a: int, b: int| 0 <= a < b < g.len() implies #[trigger] g[a].0 != #[trigger] g[b].0 by {
                assert(g[a] == prev[a]);
                if b < prev.len() {
                    assert(g[b] == prev[b]);
                }
            }
        }
    }
}

/// Whether `id` is among `seen`.
fn seen_contains(seen: &Vec<Vec<char>>, id: &Vec<char>) -> (r: bool)
    ensures
        r == exists|k: int| 0 <= k < seen.len() && seen@[k]@ == id@,
{
    let mut i: usize = 0;
    while i < seen.len()
        invariant
            i <= seen.len(),
            forall|k: int| 0 <= k < i ==> seen@[k]@ != id@,
        decreases seen.len() - i,
    {
        if chars_eq(&seen[i], id) {
            return true;
        }
        i = i + 1;
    }
    false
}

/// The number a timestamp reads as, 0 when it reads as none.
fn timestamp_number(timestamp: &String) -> (n: u64)
    ensures
        n == timestamp_key(timestamp@),
{
    match parse_u64_exec(&chars_of(timestamp.as_str())) {
        Some(n) => n,
        None => 0,
    }
}

/// The sessions of the files found: `entries` holds each file's name with
/// the session read from it, if it could be read. The list has each session
/// ID once and goes from the newest timestamp to the oldest.
pub fn collect_sessions(entries: Vec<(String, Option<ChatSession>)>) -> (r: Vec<ChatSession>)
    ensures
        exists|perm: Seq<int>| sorted_from(r@, listed(entries@), perm),
        forall|a: int, b: int| 0 <= a < b < r@.len() ==> #[trigger] r@[a].id@ != #[trigger] r@[b].id@,
{
    let ghost all = entries@;
    assert(all.len() == entries.len());
    let mut rest = entries;
    let mut found: Vec<ChatSession> = Vec::new();
    let mut seen: Vec<Vec<char>> = Vec::new();
    let ext = chars_of(".json");
    let mut k: usize = 0;
    assert(all.take(0) =~= Seq::<(String, Option<ChatSession>)>::empty());
    while rest.len() > 0
        invariant
            k + rest.len() == all.len(),
            all.len() <= usize::MAX,
            rest@ == all.skip(k as int),
            ext@ == ".json"@,
            seen.len() == k,
            forall|q: int| 0 <= q < k ==> (#[trigger] seen@[q])@ == strip_json(all[q].0@),
            found@.len() == listed(all.take(k as int)).len(),
            forall|q: int| 0 <= q < found@.len() ==> fields_of(#[trigger] found@[q]) == listed(all.take(k as int))[q],
        decreases rest.len(),
    {
        let ghost pre = all.take(k as int);
        assert(all.take(k + 1).drop_last() =~= pre);
        let (name, loaded) = rest.remove(0);
        assert(all.take(k + 1).last() == (name, loaded));
        let cs = chars_of(name.as_str());
        let id = if ends_with_exec(&cs, &ext) {
            proof {
                reveal_strlit(".json");
            }
            slice_of(&cs, 0, cs.len() - 5)
        } else {
            slice_of(&cs, 0, cs.len())
        };
        assert(id@ =~= strip_json(name@));
        let dup = seen_contains(&seen, &id);
        proof {
            if dup {
                let q = choose|q: int| 0 <= q < seen.len() && seen@[q]@ == id@;
                assert(pre[q].0@ == all[q].0@);
            } else {
                assert forall|q: int| 0 <= q < pre.len() implies strip_json(pre[q].0@) != id@ by {
                    assert(seen@[q]@ == strip_json(all[q].0@));
                }
            }
        }
        let ghost before = found@;
        if !dup {
            match loaded {
                Some(s) => {
                    let mut s = s;
                    s.id = string_of(&id);
                    found.push(s);
                },
                None => match ChatHistory::parse_filename(name.as_str()) {
                    Some((mode, timestamp, title)) => {
                        found.push(ChatSession { id: string_of(&id), title, mode, timestamp });
                    },
                    None => {},
                },
            }
        }
        proof {
            let g = listed(all.take(k + 1));
            assert forall|q: int| 0 <= q < found@.len() implies fields_of(#[trigger] found@[q]) == g[q] by {
                if q < before.len() {
                    assert(found@[q] == before[q]);
                }
            }
        }
        seen.push(id);
        k = k + 1;
        assert(rest@ =~= all.skip(k as int));
    }
    assert(all.take(k as int) =~= all);
    let ghost g = listed(all);
    // Insert each session after those that are as new or newer.
    let mut out: Vec<ChatSession> = Vec::new();
    let mut keys: Vec<u64> = Vec::new();
    let ghost mut perm: Seq<int> = seq![];
    let mut j: usize = 0;
    let n = found.len();
    let mut pending = found;
    while pending.len() > 0
        invariant
            j + pending.len() == n,
            n == g.len(),
            forall|q: int| 0 <= q < pending.len() ==> fields_of(#[trigger] pending@[q]) == g[q + j],
            out.len() == keys.len() == perm.len() == j,
            forall|i: int| 0 <= i < j ==> 0 <= #[trigger] perm[i] < j && fields_of(out@[i]) == g[perm[i]],
            forall|i: int| 0 <= i < j ==> #[trigger] keys@[i] == timestamp_key(out@[i].timestamp@),
            forall|q: int| 0 <= q < j ==> #[trigger] taken(perm, q),
            forall|a: int, b: int| 0 <= a < b < j ==> {
                ||| timestamp_key(#[trigger] out@[a].timestamp@) > timestamp_key(#[trigger] out@[b].timestamp@)
                ||| (timestamp_key(out@[a].timestamp@) == timestamp_key(out@[b].timestamp@) && perm[a] < perm[b])
            },
        decreases pending.len(),
    {
        let ghost pend = pending@;
        let s = pending.remove(0);
        assert(fields_of(s) == g[j as int]);
        assert forall|q: int| 0 <= q < pending.len() implies fields_of(#[trigger] pending@[q]) == g[q + j + 1] by {
            assert(pending@[q] == pend[q + 1]);
        }
        let key = timestamp_number(&s.timestamp);
        let mut p: usize = 0;
        while p < keys.len() && keys[p] >= key
            invariant
                p <= keys.len(),
                forall|i: int| 0 <= i < p ==> #[trigger] keys@[i] >= key,
            decreases keys.len() - p,
        {
            p = p + 1;
        }
        let ghost old_out = out@;
        let ghost old_perm = perm;
        assert forall|i: int| p <= i < old_out.len() implies timestamp_key(#[trigger] old_out[i].timestamp@) < key by {
            assert(keys@[p as int] < key);
            if i > p {
                assert(keys@[p as int] == timestamp_key(old_out[p as int].timestamp@));
                assert(keys@[i] == timestamp_key(old_out[i].timestamp@));
            }
        }
        assert forall|i: int| 0 <= i < p implies timestamp_key(#[trigger] old_out[i].timestamp@) >= key by {
            assert(keys@[i] >= key);
        }
        let ghost sk = timestamp_key(s.timestamp@);
        assert(sk == key);
        out.insert(p, s);
        keys.insert(p, key);
        proof {
            perm = old_perm.insert(p as int, j as int);
            assert forall|a: int, b: int| 0 <= a < b < j + 1 implies {
                ||| timestamp_key(#[trigger] out@[a].timestamp@) > timestamp_key(#[trigger] out@[b].timestamp@)
                ||| (timestamp_key(out@[a].timestamp@) == timestamp_key(out@[b].timestamp@) && perm[a] < perm[b])
            } by {
                if a < p && b < p {
                    assert(out@[a] == old_out[a] && out@[b] == old_out[b]);
                } else if a < p && b == p {
                    assert(out@[a] == old_out[a]);
                    assert(old_perm[a] < j);
                } else if a < p {
                    assert(out@[a] == old_out[a] && out@[b] == old_out[b - 1]);
                } else if a == p {
                    assert(out@[b] == old_out[b - 1]);
                } else {
                    assert(out@[a] == old_out[a - 1] && out@[b] == old_out[b - 1]);
                }
            }
            assert forall|q: int| 0 <= q < j + 1 implies #[trigger] taken(perm, q) by {
                if q == j {
                    assert(perm[p as int] == q);
                } else {
                    assert(taken(old_perm, q));
                    let i0 = choose|i: int| 0 <= i < old_perm.len() && #[trigger] old_perm[i] == q;
                    if i0 < p {
                        assert(perm[i0] == q);
                    } else {
                        assert(perm[i0 + 1] == q);
                    }
                }
            }
        }
        j = j + 1;
    }
    assert(sorted_from(out@, g, perm));
    proof {
        lemma_listed_ids(all);
        assert forall|a: int, b: int| 0 <= a < b < out@.len() implies #[trigger] out@[a].id@ != #[trigger] out@[b].id@ by {
            assert(fields_of(out@[a]) == g[perm[a]]);
            assert(fields_of(out@[b]) == g[perm[b]]);
            assert(perm[a] != perm[b]);
            if perm[a] < perm[b] {
                assert(g[perm[a]].0 != g[perm[b]].0);
            } else {
                assert(g[perm[b]].0 != g[perm[a]].0);
            }
        }
    }
    out
}

/// The list after a session was saved: an entry with its ID shows it now,
/// and a session not listed yet is added at the end.
pub open spec fn saved_into(
    list: Seq<(Seq<char>, Seq<char>, ChatMode, Seq<char>)>,
    s: (Seq<char>, Seq<char>, ChatMode, Seq<char>),
) -> Seq<(Seq<char>, Seq<char>, ChatMode, Seq<char>)> {
    if exists|i: int| 0 <= i < list.len() && list[i].0 == s.0 {
        Seq::new(list.len(), |i: int| if list[i].0 == s.0 { s } else { list[i] })
    } else {
        list.push(s)
    }
}

/// A copy of a session.
pub fn copy_session(s: &ChatSession) -> (r: ChatSession)
    ensures
        fields_of(r) == fields_of(*s),
{
    ChatSession { id: s.id.clone(), title: s.title.clone(), mode: s.mode, timestamp: s.timestamp.clone() }
}

/// Shows a saved session in the list: in place of the entries with its ID,
/// or at the end when it is new.
pub fn record_saved_session(sessions: &mut Vec<ChatSession>, session: ChatSession)
    ensures
        final(sessions)@.map_values(|x: ChatSession| fields_of(x)) == saved_into(
            old(sessions)@.map_values(|x: ChatSession| fields_of(x)),
            fields_of(session),
        ),
{
    let ghost before = old(sessions)@.map_values(|x: ChatSession| fields_of(x));
    let ghost f = fields_of(session);
    let id = chars_of(session.id.as_str());
    let mut found = false;
    let mut i: usize = 0;
    while i < sessions.len()
        invariant
            i <= sessions.len() == before.len(),
            id@ == f.0,
            f == fields_of(session),
            before == old(sessions)@.map_values(|x: ChatSession| fields_of(x)),
            found == exists|j: int| 0 <= j < i && before[j].0 == f.0,
            forall|j: int| 0 <= j < sessions.len() ==> #[trigger] fields_of(sessions@[j]) == if j < i && before[j].0 == f.0 {
                f
            } else {
                before[j]
            },
        decreases sessions.len() - i,
    {
        let ghost prev = sessions@;
        if chars_eq(&chars_of(sessions[i].id.as_str()), &id) {
            assert(before[i as int] == fields_of(prev[i as int]));
            sessions.set(i, copy_session(&session));
            found = true;
        } else {
            assert(before[i as int] == fields_of(prev[i as int]));
        }
        assert forall|j: int| 0 <= j < sessions.len() implies #[trigger] fields_of(sessions@[j]) == if j < i + 1 && before[j].0 == f.0 {
            f
        } else {
            before[j]
        } by {
            if j != i {
                assert(sessions@[j] == prev[j]);
            }
        }
        i = i + 1;
    }
    if !found {
        let ghost prev = sessions@;
        sessions.push(session);
        assert(sessions@.map_values(|x: ChatSession| fields_of(x)) =~= before.push(f)) by {
            assert forall|j: int| 0 <= j < before.len() implies fields_of(sessions@[j]) == before[j] by {
                assert(sessions@[j] == prev[j]);
            }
        }
    } else {
        assert(sessions@.map_values(|x: ChatSession| fields_of(x)) =~= Seq::new(
            before.len(),
            |j: int| if before[j].0 == f.0 { f } else { before[j] },
        ));
    }
}

/// The list without the sessions of ID `id`, in order.
pub open spec fn without_id(list: Seq<(Seq<char>, Seq<char>, ChatMode, Seq<char>)>, id: Seq<char>) -> Seq<
    (Seq<char>, Seq<char>, ChatMode, Seq<char>),
>
    decreases list.len(),
{
    if list.len() == 0 {
        seq![]
    } else {
        let pre = without_id(list.drop_last(), id);
        if list.last().0 == id {
            pre
        } else {
            pre.push(list.last())
        }
    }
}

/// Takes the sessions of ID `id` out of the list.
pub fn forget_session(sessions: &mut Vec<ChatSession>, id: &str)
    ensures
        final(sessions)@.map_values(|x: ChatSession| fields_of(x)) == without_id(
            old(sessions)@.map_values(|x: ChatSession| fields_of(x)),
            id@,
        ),
{
    let ghost all = old(sessions)@.map_values(|x: ChatSession| fields_of(x));
    let idc = chars_of(id);
    let mut rest: Vec<ChatSession> = Vec::new();
    std::mem::swap(sessions, &mut rest);
    let n = rest.len();
    let mut k: usize = 0;
    assert(all.take(0) =~= Seq::<(Seq<char>, Seq<char>, ChatMode, Seq<char>)>::empty());
    assert(sessions@.map_values(|x: ChatSession| fields_of(x)) =~= without_id(all.take(0), id@));
    while rest.len() > 0
        invariant
            k + rest.len() == n == all.len(),
            idc@ == id@,
            forall|q: int| 0 <= q < rest.len() ==> fields_of(#[trigger] rest@[q]) == all[q + k],
            sessions@.map_values(|x: ChatSession| fields_of(x)) == without_id(all.take(k as int), id@),
        decreases rest.len(),
    {
        let ghost r0 = rest@;
        let s = rest.remove(0);
        assert(fields_of(s) == all[k as int]);
        assert forall|q: int| 0 <= q < rest.len() implies fields_of(#[trigger] rest@[q]) == all[q + k + 1] by {
            assert(rest@[q] == r0[q + 1]);
        }
        assert(all.take(k + 1).drop_last() =~= all.take(k as int));
        let ghost before = sessions@.map_values(|x: ChatSession| fields_of(x));
        if !chars_eq(&chars_of(s.id.as_str()), &idc) {
            let ghost fs = fields_of(s);
            let ghost prev = sessions@;
            sessions.push(s);
            assert(sessions@.map_values(|x: ChatSession| fields_of(x)) =~= before.push(fs)) by {
                assert forall|j: int| 0 <= j < prev.len() implies fields_of(sessions@[j]) == before[j] by {
                    assert(sessions@[j] == prev[j]);
                }
            }
        }
        k = k + 1;
    }
    assert(all.take(k as int) =~= all);
}

/// The title of a new chat in `mode`: `New <mode name> Chat`.
pub open spec fn draft_title(mode: ChatMode) -> Seq<char> {
    "New "@ + chat_mode_name(mode) + " Chat"@
}

/// The draft session a new chat in `mode`, started at `timestamp`, is saved
/// as: the draft title, an ID made from mode, timestamp and title, and an
/// empty history of that mode.
pub fn draft_session(mode: ChatMode, timestamp: &str) -> (d: SessionData)
    ensures
        fields_of(d.session) == (session_id_of(mode, timestamp@, draft_title(mode)), draft_title(mode), mode, timestamp@),
        history_mode(d.history) == mode,
        history_is_empty(d.history),
        d.created_at@ == timestamp@,
        d.updated_at@ == timestamp@,
{
    let title = string_of(&concat(&concat(&chars_of("New "), &chars_of(mode.name())), &chars_of(" Chat")));
    let id = ChatHistory::generate_session_id(mode, timestamp, title.as_str());
    let session = ChatSession { id, title, mode, timestamp: string_of(&chars_of(timestamp)) };
    SessionData {
        session,
        history: empty_history_for_mode(mode),
        created_at: string_of(&chars_of(timestamp)),
        updated_at: string_of(&chars_of(timestamp)),
    }
}

/// The list with a new draft: at the end, unless a session of its ID is
/// listed already.
pub open spec fn with_draft(
    list: Seq<(Seq<char>, Seq<char>, ChatMode, Seq<char>)>,
    s: (Seq<char>, Seq<char>, ChatMode, Seq<char>),
) -> Seq<(Seq<char>, Seq<char>, ChatMode, Seq<char>)> {
    if exists|i: int| 0 <= i < list.len() && list[i].0 == s.0 {
        list
    } else {
        list.push(s)
    }
}

/// Lists a draft that was saved, unless its ID is listed already.
pub fn add_draft_session(sessions: &mut Vec<ChatSession>, session: ChatSession)
    ensures
        final(sessions)@.map_values(|x: ChatSession| fields_of(x)) == with_draft(
            old(sessions)@.map_values(|x: ChatSession| fields_of(x)),
            fields_of(session),
        ),
{
    let ghost before = old(sessions)@.map_values(|x: ChatSession| fields_of(x));
    let id = chars_of(session.id.as_str());
    let mut i: usize = 0;
    while i < sessions.len()
        invariant
            i <= sessions.len() == before.len(),
            id@ == session.id@,
            sessions@ == old(sessions)@,
            before == old(sessions)@.map_values(|x: ChatSession| fields_of(x)),
            forall|j: int| 0 <= j < i ==> #[trigger] before[j].0 != session.id@,
        decreases sessions.len() - i,
    {
        assert(before[i as int] == fields_of(sessions@[i as int]));
        if chars_eq(&chars_of(sessions[i].id.as_str()), &id) {
            return;
        }
        i = i + 1;
    }
    let ghost prev = sessions@;
    let ghost f = fields_of(session);
    sessions.push(session);
    assert(sessions@.map_values(|x: ChatSession| fields_of(x)) =~= before.push(f)) by {
        assert forall|j: int| 0 <= j < before.len() implies fields_of(sessions@[j]) == before[j] by {
            assert(sessions@[j] == prev[j]);
        }
    }
}

} // verus!
