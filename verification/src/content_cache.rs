//! A bounded cache of parsed replies, so that a reply shown again is not
//! parsed again; the oldest entry leaves first once the cache is full.

use vstd::prelude::*;
use std::collections::{HashMap, VecDeque};
use std::collections::hash_map::DefaultHasher;
use std::hash::Hasher;
use vstd::std_specs::hash::DefaultHasherAdditionalSpecFns;
use crate::markdown::{
    Block, blocks_view, block_view, item_view, items_view, list_view, lists_view, table_view, ContentSegment,
    ListBlock, ListItem, TableBlock,
};
use crate::md_block::{parse_message, parse_message_content, text_fits};
use crate::text::{chars_eq, chars_of};

verus! {

/// A copy of a table.
fn copy_table(t: &TableBlock) -> (r: TableBlock)
    ensures
        table_view(r) == table_view(*t),
{
    let mut headers: Vec<String> = Vec::new();
    let mut i: usize = 0;
    while i < t.headers.len()
        invariant
            i <= t.headers.len(),
            headers.len() == i,
            forall|k: int| 0 <= k < i ==> #[trigger] headers@[k]@ == t.headers@[k]@,
        decreases t.headers.len() - i,
    {
        headers.push(t.headers[i].clone());
        i = i + 1;
    }
    let mut alignments = Vec::new();
    let mut i: usize = 0;
    while i < t.alignments.len()
        invariant
            i <= t.alignments.len(),
            alignments@ == t.alignments@.take(i as int),
        decreases t.alignments.len() - i,
    {
        alignments.push(t.alignments[i]);
        i = i + 1;
        assert(alignments@ =~= t.alignments@.take(i as int));
    }
    let mut rows: Vec<Vec<String>> = Vec::new();
    let mut i: usize = 0;
    while i < t.rows.len()
        invariant
            i <= t.rows.len(),
            rows.len() == i,
            forall|k: int| 0 <= k < i ==> crate::markdown::strings_view(#[trigger] rows@[k]@)
                == crate::markdown::strings_view(t.rows@[k]@),
        decreases t.rows.len() - i,
    {
        let src = &t.rows[i];
        let mut row: Vec<String> = Vec::new();
        let mut j: usize = 0;
        while j < src.len()
            invariant
                j <= src.len(),
                row.len() == j,
                forall|k: int| 0 <= k < j ==> #[trigger] row@[k]@ == src@[k]@,
            decreases src.len() - j,
        {
            row.push(src[j].clone());
            j = j + 1;
        }
        assert(crate::markdown::strings_view(row@) =~= crate::markdown::strings_view(src@));
        rows.push(row);
        i = i + 1;
    }
    assert(alignments@ =~= t.alignments@);
    let r = TableBlock { headers, alignments, rows };
    assert(crate::markdown::strings_view(r.headers@) =~= crate::markdown::strings_view(t.headers@));
    assert(crate::markdown::rows_view(r.rows@) =~= crate::markdown::rows_view(t.rows@));
    r
}

/// A copy of a list.
fn copy_list(l: &ListBlock) -> (r: ListBlock)
    ensures
        list_view(r) == list_view(*l),
    decreases *l, 0nat,
{
    let mut items: Vec<ListItem> = Vec::new();
    let mut i: usize = 0;
    while i < l.items.len()
        invariant
            i <= l.items.len(),
            items.len() == i,
            forall|k: int| 0 <= k < i ==> item_view(#[trigger] items@[k]) == item_view(l.items@[k]),
        decreases l.items.len() - i,
    {
        let it = &l.items[i];
        assert(decreases_to!(*l => l.items));
        let children = copy_lists(&it.children);
        items.push(ListItem { text: it.text.clone(), children });
        i = i + 1;
    }
    assert(items_view(items) =~= items_view(l.items));
    ListBlock { ordered: l.ordered, items }
}

/// A copy of a sequence of lists.
fn copy_lists(v: &Vec<ListBlock>) -> (r: Vec<ListBlock>)
    ensures
        lists_view(r) == lists_view(*v),
    decreases *v, 1nat,
{
    let mut out: Vec<ListBlock> = Vec::new();
    let mut i: usize = 0;
    while i < v.len()
        invariant
            i <= v.len(),
            out.len() == i,
            forall|k: int| 0 <= k < i ==> list_view(#[trigger] out@[k]) == list_view(v@[k]),
        decreases v.len() - i,
    {
        out.push(copy_list(&v[i]));
        i = i + 1;
    }
    assert(lists_view(out) =~= lists_view(*v));
    out
}

/// A copy of a block.
fn copy_block(b: &ContentSegment) -> (r: ContentSegment)
    ensures
        block_view(r) == block_view(*b),
    decreases *b, 0nat,
{
    match b {
        ContentSegment::Paragraph(t) => ContentSegment::Paragraph(t.clone()),
        ContentSegment::Header { level, text } => ContentSegment::Header { level: *level, text: text.clone() },
        ContentSegment::CodeBlock { language, code } => ContentSegment::CodeBlock {
            language: language.clone(),
            code: code.clone(),
        },
        ContentSegment::FormulaBlock(t) => ContentSegment::FormulaBlock(t.clone()),
        ContentSegment::Table(t) => ContentSegment::Table(copy_table(t)),
        ContentSegment::List(l) => ContentSegment::List(copy_list(l)),
        ContentSegment::Blockquote(v) => ContentSegment::Blockquote(copy_blocks(v)),
        ContentSegment::HorizontalRule => ContentSegment::HorizontalRule,
    }
}

/// A copy of a sequence of blocks.
pub fn copy_blocks(v: &Vec<ContentSegment>) -> (r: Vec<ContentSegment>)
    ensures
        blocks_view(r) == blocks_view(*v),
    decreases *v, 1nat,
{
    let mut out: Vec<ContentSegment> = Vec::new();
    let mut i: usize = 0;
    while i < v.len()
        invariant
            i <= v.len(),
            out.len() == i,
            forall|k: int| 0 <= k < i ==> block_view(#[trigger] out@[k]) == block_view(v@[k]),
        decreases v.len() - i,
    {
        out.push(copy_block(&v[i]));
        i = i + 1;
    }
    assert(blocks_view(out) =~= blocks_view(*v));
    out
}

/// The most parsed replies the cache keeps.
pub const PARSED_CACHE_MAX_ENTRIES: usize = 256;

/// What hashing a text with `str`'s `Hash` impl leaves in a
/// `DefaultHasher` that held `state`.
pub uninterp spec fn str_hash_state(state: Seq<Seq<u8>>, s: Seq<char>) -> Seq<Seq<u8>>;

/// `<str as Hash>::hash` into a `DefaultHasher`. What it feeds the hasher
/// (the text's bytes and a final `0xff`, through `write_str`) is named, not
/// stated: it depends on the hasher's state and the text alone.
#[verifier::external_body]
fn hash_str(s: &str, hasher: &mut DefaultHasher)
    ensures
        final(hasher)@ == str_hash_state(old(hasher)@, s@),
{
    std::hash::Hash::hash(s, hasher);
}

/// The cache key of a reply.
pub open spec fn content_key(content: Seq<char>) -> u64 {
    DefaultHasher::spec_finish(str_hash_state(Seq::empty(), content))
}

/// The reply's hash, with a hasher that starts the same in every process.
pub fn content_hash(content: &str) -> (h: u64)
    ensures
        h == content_key(content@),
{
    let mut hasher = DefaultHasher::new();
    hash_str(content, &mut hasher);
    hasher.finish()
}

/// Parsed replies by the hash of their text, with the keys in the order
/// they came in.
pub struct ParsedContentCache {
    order: VecDeque<u64>,
    entries: HashMap<u64, (String, Vec<ContentSegment>)>,
}

impl View for ParsedContentCache {
    /// The keys, oldest first, and what each holds: the reply's text and
    /// its blocks.
    type V = (Seq<u64>, Map<u64, (Seq<char>, Seq<Block>)>);

    closed spec fn view(&self) -> Self::V {
        (
            self.order@,
            Map::new(
                |k: u64| self.entries@.contains_key(k),
                |k: u64| (self.entries@[k].0@, blocks_view(self.entries@[k].1)),
            ),
        )
    }
}

impl ParsedContentCache {
    /// Each key is listed once, the listed keys are those held, and there are
    /// no more than the cache keeps.
    pub closed spec fn wf(&self) -> bool {
        &&& self.order@.no_duplicates()
        &&& forall|k: u64| self.entries@.contains_key(k) <==> self.order@.contains(k)
        &&& self.order@.len() <= PARSED_CACHE_MAX_ENTRIES
    }

    /// The invariant, seen from outside: the held keys are the listed ones,
    /// and there are no more than the cache keeps.
    pub proof fn lemma_wf(&self, k: u64)
        requires
            self.wf(),
        ensures
            self@.1.contains_key(k) <==> self@.0.contains(k),
            self@.0.len() <= PARSED_CACHE_MAX_ENTRIES,
    {
    }

    /// An empty cache.
    pub fn new() -> (c: Self)
        ensures
            c.wf(),
            c@.0 == Seq::<u64>::empty(),
            c@.1 == Map::<u64, (Seq<char>, Seq<Block>)>::empty(),
    {
        let c = ParsedContentCache { order: VecDeque::new(), entries: HashMap::new() };
        assert(c@.1 =~= Map::<u64, (Seq<char>, Seq<Block>)>::empty());
        c
    }

    /// The blocks held under `key`, if they are those of `content`.
    pub fn get(&self, key: u64, content: &str) -> (r: Option<Vec<ContentSegment>>)
        requires
            self.wf(),
        ensures
            match r {
                Some(segs) => self@.1.contains_key(key) && self@.1[key].0 == content@ && blocks_view(segs) == self@.1[key].1,
                None => !(self@.1.contains_key(key) && self@.1[key].0 == content@),
            },
    {
        match self.entries.get(&key) {
            Some(entry) => {
                if chars_eq(&chars_of(entry.0.as_str()), &chars_of(content)) {
                    Some(copy_blocks(&entry.1))
                } else {
                    None
                }
            },
            None => None,
        }
    }

    /// Holds `segments`, the parse of `content`, under `key`; a new key
    /// goes last, and once more keys are held than the cache keeps, the
    /// oldest leaves.
    pub fn insert(&mut self, key: u64, content: String, segments: Vec<ContentSegment>)
        requires
            old(self).wf(),
        ensures
            final(self).wf(),
            final(self)@.1.contains_key(key),
            final(self)@.1[key] == (content@, blocks_view(segments)),
            final(self)@.0 == if old(self)@.0.contains(key) {
                old(self)@.0
            } else if old(self)@.0.len() < PARSED_CACHE_MAX_ENTRIES {
                old(self)@.0.push(key)
            } else {
                old(self)@.0.push(key).drop_first()
            },
            final(self)@.1 == if !old(self)@.0.contains(key) && old(self)@.0.len() == PARSED_CACHE_MAX_ENTRIES {
                old(self)@.1.insert(key, (content@, blocks_view(segments))).remove(old(self)@.0[0])
            } else {
                old(self)@.1.insert(key, (content@, blocks_view(segments)))
            },
    {
        let ghost old_order = self.order@;
        let ghost old_entries = self.entries@;
        let ghost v = (content@, blocks_view(segments));
        let known = self.entries.contains_key(&key);
        if !known {
            self.order.push_back(key);
        }
        self.entries.insert(key, (content, segments));
        let ghost mid_order = self.order@;
        let ghost mid_entries = self.entries@;
        proof {
            assert forall|a: int, b: int| 0 <= a < b < mid_order.len() implies mid_order[a] != mid_order[b] by {
                if !known && b == mid_order.len() - 1 {
                    assert(old_order[a] == mid_order[a]);
                    assert(!old_order.contains(key));
                }
            }
            assert forall|k: u64| self.entries@.contains_key(k) <==> self.order@.contains(k) by {
                if k != key && old_order.contains(k) {
                    let i = choose|i: int| 0 <= i < old_order.len() && old_order[i] == k;
                    assert(mid_order[i] == k);
                }
                if k != key && mid_order.contains(k) {
                    let i = choose|i: int| 0 <= i < mid_order.len() && mid_order[i] == k;
                    assert(old_order[i] == k);
                }
                if k == key && !known {
                    assert(mid_order[mid_order.len() - 1] == key);
                }
            }
        }
        while self.order.len() > PARSED_CACHE_MAX_ENTRIES
            invariant
                mid_order.len() <= PARSED_CACHE_MAX_ENTRIES + 1,
                mid_order.no_duplicates(),
                forall|k: u64| mid_entries.contains_key(k) <==> mid_order.contains(k),
                (self.order@ == mid_order && self.entries@ == mid_entries) || (
                    mid_order.len() == PARSED_CACHE_MAX_ENTRIES + 1 && self.order@ == mid_order.drop_first()
                        && self.entries@ == mid_entries.remove(mid_order[0])),
            decreases self.order.len(),
        {
            let front = self.order.pop_front();
            match front {
                Some(evicted) => {
                    self.entries.remove(&evicted);
                },
                None => {},
            }
        }
        proof {
            if self.order@ != mid_order {
                let e = mid_order[0];
                assert(e != key) by {
                    assert(mid_order[mid_order.len() - 1] == key);
                }
                assert forall|a: int, b: int| 0 <= a < b < self.order@.len() implies self.order@[a] != self.order@[b] by {
                    assert(self.order@[a] == mid_order[a + 1] && self.order@[b] == mid_order[b + 1]);
                }
                assert forall|k: u64| self.entries@.contains_key(k) <==> self.order@.contains(k) by {
                    if self.order@.contains(k) {
                        let i = choose|i: int| 0 <= i < self.order@.len() && self.order@[i] == k;
                        assert(mid_order[i + 1] == k);
                        assert(mid_order[0] != mid_order[i + 1]);
                    }
                    if k != e && mid_order.contains(k) {
                        let i = choose|i: int| 0 <= i < mid_order.len() && mid_order[i] == k;
                        assert(i != 0);
                        assert(self.order@[i - 1] == k);
                    }
                }
                assert(old_order[0] == e);
            }
            assert(self@.1 =~= (if !old_order.contains(key) && old_order.len() == PARSED_CACHE_MAX_ENTRIES {
                old(self)@.1.insert(key, v).remove(old_order[0])
            } else {
                old(self)@.1.insert(key, v)
            }));
            if !known && old_order.len() == PARSED_CACHE_MAX_ENTRIES {
                assert(self.order@ =~= old_order.push(key).drop_first());
            }
        }
    }
}

/// Every reply held in `entries` is held with its parse.
pub open spec fn holds_parses(entries: Map<u64, (Seq<char>, Seq<Block>)>) -> bool {
    forall|k: u64| #[trigger] entries.contains_key(k) ==> parse_message(entries[k].0) == Some(entries[k].1)
}

/// The blocks of a reply, from the cache when it holds them; a reply parsed
/// afresh is put in the cache.
pub fn parse_content_cached(cache: &mut ParsedContentCache, content: &str) -> (r: Vec<ContentSegment>)
    requires
        old(cache).wf(),
        holds_parses(old(cache)@.1),
        text_fits(content@),
        parse_message(content@) is Some,
    ensures
        final(cache).wf(),
        holds_parses(final(cache)@.1),
        blocks_view(r) == parse_message(content@)->0,
        final(cache)@.1.contains_key(content_key(content@)),
        final(cache)@.1[content_key(content@)] == (content@, parse_message(content@)->0),
        ({
            let key = content_key(content@);
            let held = old(cache)@.1.contains_key(key) && old(cache)@.1[key].0 == content@;
            let v = (content@, parse_message(content@)->0);
            &&& held ==> final(cache)@ == old(cache)@
            &&& !held ==> final(cache)@.0 == if old(cache)@.0.contains(key) {
                old(cache)@.0
            } else if old(cache)@.0.len() < PARSED_CACHE_MAX_ENTRIES {
                old(cache)@.0.push(key)
            } else {
                old(cache)@.0.push(key).drop_first()
            }
            &&& !held ==> final(cache)@.1 == if !old(cache)@.0.contains(key) && old(cache)@.0.len()
                == PARSED_CACHE_MAX_ENTRIES {
                old(cache)@.1.insert(key, v).remove(old(cache)@.0[0])
            } else {
                old(cache)@.1.insert(key, v)
            }
        }),
{
    let key = content_hash(content);
    match cache.get(key, content) {
        Some(cached) => {
            return cached;
        },
        None => {},
    }
    let parsed = parse_message_content(content);
    let ghost before = cache@.1;
    cache.insert(key, content.to_owned(), copy_blocks(&parsed));
    proof {
        let v = (content@, blocks_view(parsed));
        assert forall|k: u64| #[trigger] cache@.1.contains_key(k) implies parse_message(cache@.1[k].0) == Some(cache@.1[k].1) by {
            if k != key {
                assert(before.contains_key(k));
            }
        }
    }
    parsed
}

} // verus!
