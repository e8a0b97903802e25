use vstd::prelude::*;
use crate::trie::{Trie, TrieResult};

verus! {

// Node leads.
//   00..0f  branch node: the entry count is lead + 1, or, for lead 0, one more
//           than the following byte;
//   10..1f  linear-match node: the next (lead - 0x0f) bytes must match;
//   20..ff  value node: bit 0 marks a final value; the lead shifted right by
//           one gives the number of payload bytes and the value's top bits.
const MAX_BRANCH_LINEAR_SUB_NODE_LENGTH: usize = 5;
const MIN_LINEAR_MATCH: u8 = 0x10;
const MIN_VALUE_LEAD: u8 = 0x20;

// Thresholds on a value lead shifted right by one.
const MIN_ONE_BYTE_VALUE_LEAD: u8 = 0x10;
const MIN_TWO_BYTE_VALUE_LEAD: u8 = 0x51;
const MIN_THREE_BYTE_VALUE_LEAD: u8 = 0x6c;
const FOUR_BYTE_VALUE_LEAD: u8 = 0x7e;

// Thresholds on a delta lead.
const MIN_TWO_BYTE_DELTA_LEAD: u8 = 0xc0;
const MIN_THREE_BYTE_DELTA_LEAD: u8 = 0xf0;
const FOUR_BYTE_DELTA_LEAD: u8 = 0xfe;

/// Bytes taken by a value whose lead byte is `lead`, the lead included.
pub open spec fn value_width(lead: u8) -> int {
    let v = lead as int / 2;
    if v < 0x51 {
        1
    } else if v < 0x6c {
        2
    } else if v < 0x7e {
        3
    } else if v == 0x7e {
        4
    } else {
        5
    }
}

/// The integer of the value whose lead byte stands at `p`.
pub open spec fn value_payload(d: Seq<u8>, p: int) -> int {
    let v = d[p] as int / 2;
    if v < 0x51 {
        v - 0x10
    } else if v < 0x6c {
        (v - 0x51) * 0x100 + d[p + 1]
    } else if v < 0x7e {
        (v - 0x6c) * 0x10000 + d[p + 1] * 0x100 + d[p + 2]
    } else if v == 0x7e {
        d[p + 1] * 0x10000 + d[p + 2] * 0x100 + d[p + 3]
    } else {
        d[p + 1] * 0x1000000 + d[p + 2] * 0x10000 + d[p + 3] * 0x100 + d[p + 4]
    }
}

/// Bytes taken by a jump delta whose lead byte is `lead`, the lead included.
pub open spec fn delta_width(lead: u8) -> int {
    if lead < 0xc0 {
        1
    } else if lead < 0xf0 {
        2
    } else if lead < 0xfe {
        3
    } else if lead == 0xfe {
        4
    } else {
        5
    }
}

/// The integer of the jump delta whose lead byte stands at `p`.
pub open spec fn delta_payload(d: Seq<u8>, p: int) -> int {
    let lead = d[p] as int;
    if lead < 0xc0 {
        lead
    } else if lead < 0xf0 {
        (lead - 0xc0) * 0x100 + d[p + 1]
    } else if lead < 0xfe {
        (lead - 0xf0) * 0x10000 + d[p + 1] * 0x100 + d[p + 2]
    } else if lead == 0xfe {
        d[p + 1] * 0x10000 + d[p + 2] * 0x100 + d[p + 3]
    } else {
        d[p + 1] * 0x1000000 + d[p + 2] * 0x10000 + d[p + 3] * 0x100 + d[p + 4]
    }
}

/// The position after the value node at `p`, when that node is whole and
/// something follows it.
pub open spec fn skip_value_spec(d: Seq<u8>, p: int) -> Option<int> {
    if 0 <= p < d.len() && d[p] >= 0x20 && p + value_width(d[p]) < d.len() {
        Some(p + value_width(d[p]))
    } else {
        None
    }
}

/// The position after the jump delta at `p`, when something follows it.
pub open spec fn skip_delta_spec(d: Seq<u8>, p: int) -> Option<int> {
    if 0 <= p < d.len() && p + delta_width(d[p]) < d.len() {
        Some(p + delta_width(d[p]))
    } else {
        None
    }
}

/// Where the jump delta at `p` leads: the end of the delta plus its value,
/// when the delta is whole and its target lies inside the trie.
pub open spec fn jump_spec(d: Seq<u8>, p: int) -> Option<int> {
    if 0 <= p < d.len() && p + delta_width(d[p]) <= d.len() && p + delta_width(d[p])
        + delta_payload(d, p) < d.len() {
        Some(p + delta_width(d[p]) + delta_payload(d, p))
    } else {
        None
    }
}

/// Where the non-final value at `p`, read as a jump delta, leads: the end of
/// the value plus its integer, when the value is whole and its target lies
/// inside the trie.
pub open spec fn value_jump_spec(d: Seq<u8>, p: int) -> Option<int> {
    if 0 <= p < d.len() && p + value_width(d[p]) <= d.len() && p + value_width(d[p])
        + value_payload(d, p) < d.len() {
        Some(p + value_width(d[p]) + value_payload(d, p))
    } else {
        None
    }
}

/// The status that a value lead byte announces.
pub open spec fn value_result_spec(lead: u8) -> TrieResult {
    if lead % 2 == 1 {
        TrieResult::FinalValue
    } else {
        TrieResult::Intermediate
    }
}

/// The status that the node lead `lead` announces to a walk standing on it.
pub open spec fn classify(lead: u8) -> TrieResult {
    if lead >= 0x20 {
        value_result_spec(lead)
    } else {
        TrieResult::NoValue
    }
}

/// A cursor over a byte-serialized trie.
///
/// `pos` is `None` once the walk has failed; otherwise it is the offset in
/// the trie data of the next node to read. `remaining_match_length` is
/// `Some(k)` while the walk is inside a linear-match node of which `k + 1`
/// bytes are still to match.
#[derive(Clone, Copy, Debug)]
pub struct BytesTrie {
    pub pos: Option<usize>,
    pub root: usize,
    pub remaining_match_length: Option<usize>,
}

/// A cursor over a trie rooted at `root` whose walk has failed.
pub open spec fn stopped(root: usize) -> BytesTrie {
    BytesTrie { pos: None, root, remaining_match_length: None }
}

/// The state and status after a unit that ends a node, when the next node
/// starts at `p`: the walk stands on that node, and a value node there
/// tells whether a key ends here.
pub open spec fn park_spec(d: Seq<u8>, root: usize, p: int) -> (BytesTrie, TrieResult) {
    if 0 <= p < d.len() {
        (BytesTrie { pos: Some(p as usize), root, remaining_match_length: None }, classify(d[p]))
    } else {
        (stopped(root), TrieResult::NoMatch)
    }
}

/// The outcome of matching the selector before the value at `p` inside a
/// branch: a final value ends the walk there; any other value is a jump to
/// the node that continues the walk.
pub open spec fn leaf_spec(d: Seq<u8>, root: usize, p: int) -> (BytesTrie, TrieResult) {
    if !(0 <= p < d.len()) || d[p] < 0x20 {
        (stopped(root), TrieResult::NoMatch)
    } else if d[p] % 2 == 1 {
        (BytesTrie { pos: Some(p as usize), root, remaining_match_length: None }, TrieResult::FinalValue)
    } else {
        match value_jump_spec(d, p) {
            Some(t) => park_spec(d, root, t),
            None => (stopped(root), TrieResult::NoMatch),
        }
    }
}

/// The last entry of a branch: its selector at `p` is followed directly by
/// the node that continues the walk.
pub open spec fn tail_spec(d: Seq<u8>, root: usize, p: int, unit: u8) -> (BytesTrie, TrieResult) {
    if 0 <= p < d.len() && d[p] == unit {
        park_spec(d, root, p + 1)
    } else {
        (stopped(root), TrieResult::NoMatch)
    }
}

/// The linear part of a branch: `n` entries from `p`, each a selector and a
/// value but the last, which is a bare selector.
pub open spec fn linear_spec(d: Seq<u8>, root: usize, p: int, n: int, unit: u8) -> (BytesTrie, TrieResult)
    decreases n,
{
    if !(0 <= p < d.len()) {
        (stopped(root), TrieResult::NoMatch)
    } else if d[p] == unit {
        leaf_spec(d, root, p + 1)
    } else {
        match skip_value_spec(d, p + 1) {
            Some(q) => if n - 1 <= 1 {
                tail_spec(d, root, q, unit)
            } else {
                linear_spec(d, root, q, n - 1, unit)
            },
            None => (stopped(root), TrieResult::NoMatch),
        }
    }
}

/// A branch of `count` entries from `p`: a binary search over selectors
/// while more than five entries remain, then a linear scan.
pub open spec fn branch_spec(d: Seq<u8>, root: usize, p: int, count: int, unit: u8) -> (BytesTrie, TrieResult)
    decreases count,
{
    if count <= 5 {
        linear_spec(d, root, p, count, unit)
    } else if !(0 <= p < d.len()) {
        (stopped(root), TrieResult::NoMatch)
    } else if unit < d[p] {
        match jump_spec(d, p + 1) {
            Some(t) => branch_spec(d, root, t, count / 2, unit),
            None => (stopped(root), TrieResult::NoMatch),
        }
    } else {
        match skip_delta_spec(d, p + 1) {
            Some(q) => branch_spec(d, root, q, count - count / 2, unit),
            None => (stopped(root), TrieResult::NoMatch),
        }
    }
}

/// A branch node whose lead byte `lead` has just been read, with `p` the
/// position after it.
pub open spec fn branch_entry_spec(d: Seq<u8>, root: usize, p: int, lead: int, unit: u8) -> (BytesTrie, TrieResult) {
    if lead != 0 {
        branch_spec(d, root, p, lead + 1, unit)
    } else if 0 <= p < d.len() {
        branch_spec(d, root, p + 1, d[p] + 1, unit)
    } else {
        (stopped(root), TrieResult::NoMatch)
    }
}

/// The step of a walk standing on the node at `p`, outside any linear-match
/// node, for the byte `unit`. Intermediate values on the way are passed
/// over; a final value ends the walk.
pub open spec fn next_impl_spec(d: Seq<u8>, root: usize, p: int, unit: u8) -> (BytesTrie, TrieResult)
    decreases d.len() - p,
{
    if !(0 <= p < d.len()) {
        (stopped(root), TrieResult::NoMatch)
    } else if d[p] < 0x10 {
        branch_entry_spec(d, root, p + 1, d[p] as int, unit)
    } else if d[p] < 0x20 {
        if p + 1 < d.len() && d[p + 1] == unit {
            if d[p] == 0x10 {
                park_spec(d, root, p + 2)
            } else {
                (
                    BytesTrie {
                        pos: Some((p + 2) as usize),
                        root,
                        remaining_match_length: Some((d[p] - 0x11) as usize),
                    },
                    TrieResult::NoValue,
                )
            }
        } else {
            (stopped(root), TrieResult::NoMatch)
        }
    } else if d[p] % 2 == 1 {
        (stopped(root), TrieResult::NoMatch)
    } else {
        match skip_value_spec(d, p) {
            Some(q) => if q > p {
                next_impl_spec(d, root, q, unit)
            } else {
                (stopped(root), TrieResult::NoMatch)
            },
            None => (stopped(root), TrieResult::NoMatch),
        }
    }
}

/// An input unit as a byte of the trie, when it is one.
pub open spec fn unit_byte(unit: int) -> Option<u8> {
    if 0 <= unit <= 0xff {
        Some(unit as u8)
    } else {
        None
    }
}

impl BytesTrie {
    /// The cursor of a fresh walk over the trie rooted at `root`.
    pub open spec fn initial(root: usize) -> BytesTrie {
        BytesTrie { pos: Some(root), root, remaining_match_length: None }
    }

    /// Restarting from the root with `unit`.
    pub open spec fn first_step(self, d: Seq<u8>, unit: int) -> (BytesTrie, TrieResult) {
        match unit_byte(unit) {
            Some(b) => next_impl_spec(d, self.root, self.root as int, b),
            None => (stopped(self.root), TrieResult::NoMatch),
        }
    }

    /// Continuing the walk with `unit`.
    pub open spec fn next_step(self, d: Seq<u8>, unit: int) -> (BytesTrie, TrieResult) {
        match self.pos {
            None => (self, TrieResult::NoMatch),
            Some(p) => match unit_byte(unit) {
                None => (stopped(self.root), TrieResult::NoMatch),
                Some(b) => match self.remaining_match_length {
                    None => next_impl_spec(d, self.root, p as int, b),
                    Some(k) => if p < d.len() && d[p as int] == b {
                        if k == 0 {
                            park_spec(d, self.root, p + 1)
                        } else {
                            (
                                BytesTrie {
                                    pos: Some((p + 1) as usize),
                                    root: self.root,
                                    remaining_match_length: Some((k - 1) as usize),
                                },
                                TrieResult::NoValue,
                            )
                        }
                    } else {
                        (stopped(self.root), TrieResult::NoMatch)
                    },
                },
            },
        }
    }

    /// The status of the walk so far.
    pub open spec fn current_status(self, d: Seq<u8>) -> TrieResult {
        match self.pos {
            None => TrieResult::NoMatch,
            Some(p) => if self.remaining_match_length is Some {
                TrieResult::NoValue
            } else if p < d.len() {
                classify(d[p as int])
            } else {
                TrieResult::NoMatch
            },
        }
    }
}

/// The position after a value's payload, given the position `pos` just
/// after its lead byte `lead_byte`.
fn skip_value(pos: usize, lead_byte: u8) -> (r: usize)
    requires
        lead_byte >= MIN_VALUE_LEAD,
        pos + 4 <= usize::MAX,
    ensures
        r == pos + value_width(lead_byte) - 1,
{
    let v = lead_byte / 2;
    if v < MIN_TWO_BYTE_VALUE_LEAD {
        pos
    } else if v < MIN_THREE_BYTE_VALUE_LEAD {
        pos + 1
    } else if v < FOUR_BYTE_VALUE_LEAD {
        pos + 2
    } else if v == FOUR_BYTE_VALUE_LEAD {
        pos + 3
    } else {
        pos + 4
    }
}

impl BytesTrie {
    /// A cursor at the start of the trie rooted at `offset`.
    pub fn new(offset: usize) -> (r: BytesTrie)
        ensures
            r == BytesTrie::initial(offset),
    {
        BytesTrie { pos: Some(offset), root: offset, remaining_match_length: None }
    }

    /// Ends the walk: every later `next` reports no match.
    fn stop(&mut self)
        ensures
            *final(self) == stopped(old(self).root),
    {
        self.pos = None;
        self.remaining_match_length = None;
    }

    /// The status announced by a value lead byte.
    fn value_result(node: u8) -> (r: TrieResult)
        ensures
            r == value_result_spec(node),
    {
        if node % 2 == 1 {
            TrieResult::FinalValue
        } else {
            TrieResult::Intermediate
        }
    }

    /// Stands the walk on the node at `pos`, after a unit that ended a node.
    fn park(&mut self, d: &[u8], pos: usize) -> (r: TrieResult)
        ensures
            (*final(self), r) == park_spec(d@, old(self).root, pos as int),
    {
        if pos >= d.len() {
            self.stop();
            return TrieResult::NoMatch;
        }
        self.pos = Some(pos);
        self.remaining_match_length = None;
        let node = d[pos];
        if node >= MIN_VALUE_LEAD {
            BytesTrie::value_result(node)
        } else {
            TrieResult::NoValue
        }
    }

    /// The position after the value node at `pos`.
    fn skip_value(d: &[u8], pos: usize) -> (r: Option<usize>)
        ensures
            r matches Some(q) ==> skip_value_spec(d@, pos as int) == Some(q as int),
            r is None ==> skip_value_spec(d@, pos as int) is None,
    {
        if pos >= d.len() {
            return None;
        }
        let lead = d[pos];
        if lead < MIN_VALUE_LEAD {
            return None;
        }
        // Payload bytes after the lead.
        let payload = skip_value(0, lead);
        if payload < d.len() - pos - 1 {
            Some(pos + 1 + payload)
        } else {
            None
        }
    }

    /// The position after the jump delta at `pos`.
    fn skip_delta(d: &[u8], pos: usize) -> (r: Option<usize>)
        ensures
            r matches Some(q) ==> skip_delta_spec(d@, pos as int) == Some(q as int),
            r is None ==> skip_delta_spec(d@, pos as int) is None,
    {
        if pos >= d.len() {
            return None;
        }
        let delta = d[pos];
        let width: usize = if delta < MIN_TWO_BYTE_DELTA_LEAD {
            1
        } else if delta < MIN_THREE_BYTE_DELTA_LEAD {
            2
        } else if delta < FOUR_BYTE_DELTA_LEAD {
            3
        } else if delta == FOUR_BYTE_DELTA_LEAD {
            4
        } else {
            5
        };
        if width < d.len() - pos {
            Some(pos + width)
        } else {
            None
        }
    }

    /// The target of the jump delta at `pos`: the end of the delta plus its
    /// value.
    fn jump_by_delta(d: &[u8], pos: usize) -> (r: Option<usize>)
        ensures
            r matches Some(t) ==> jump_spec(d@, pos as int) == Some(t as int),
            r is None ==> jump_spec(d@, pos as int) is None,
    {
        if pos >= d.len() {
            return None;
        }
        let lead = d[pos];
        let width: usize = if lead < MIN_TWO_BYTE_DELTA_LEAD {
            1
        } else if lead < MIN_THREE_BYTE_DELTA_LEAD {
            2
        } else if lead < FOUR_BYTE_DELTA_LEAD {
            3
        } else if lead == FOUR_BYTE_DELTA_LEAD {
            4
        } else {
            5
        };
        if width > d.len() - pos {
            return None;
        }
        let delta: u64 = if lead < MIN_TWO_BYTE_DELTA_LEAD {
            lead as u64
        } else if lead < MIN_THREE_BYTE_DELTA_LEAD {
            (lead - MIN_TWO_BYTE_DELTA_LEAD) as u64 * 0x100 + d[pos + 1] as u64
        } else if lead < FOUR_BYTE_DELTA_LEAD {
            (lead - MIN_THREE_BYTE_DELTA_LEAD) as u64 * 0x10000 + d[pos + 1] as u64 * 0x100
                + d[pos + 2] as u64
        } else if lead == FOUR_BYTE_DELTA_LEAD {
            d[pos + 1] as u64 * 0x10000 + d[pos + 2] as u64 * 0x100 + d[pos + 3] as u64
        } else {
            d[pos + 1] as u64 * 0x1000000 + d[pos + 2] as u64 * 0x10000 + d[pos + 3] as u64
                * 0x100 + d[pos + 4] as u64
        };
        if delta < (d.len() - pos - width) as u64 {
            Some(pos + width + delta as usize)
        } else {
            None
        }
    }

    /// The target of the non-final value at `pos` read as a jump delta: the
    /// end of the value plus its integer.
    fn jump_by_value(d: &[u8], pos: usize) -> (r: Option<usize>)
        requires
            pos < d@.len() ==> d@[pos as int] >= MIN_VALUE_LEAD,
        ensures
            r matches Some(t) ==> value_jump_spec(d@, pos as int) == Some(t as int),
            r is None ==> value_jump_spec(d@, pos as int) is None,
    {
        if pos >= d.len() {
            return None;
        }
        let v = d[pos] / 2;
        let width: usize = if v < MIN_TWO_BYTE_VALUE_LEAD {
            1
        } else if v < MIN_THREE_BYTE_VALUE_LEAD {
            2
        } else if v < FOUR_BYTE_VALUE_LEAD {
            3
        } else if v == FOUR_BYTE_VALUE_LEAD {
            4
        } else {
            5
        };
        if width > d.len() - pos {
            return None;
        }
        let delta: u64 = if v < MIN_TWO_BYTE_VALUE_LEAD {
            (v - MIN_ONE_BYTE_VALUE_LEAD) as u64
        } else if v < MIN_THREE_BYTE_VALUE_LEAD {
            (v - MIN_TWO_BYTE_VALUE_LEAD) as u64 * 0x100 + d[pos + 1] as u64
        } else if v < FOUR_BYTE_VALUE_LEAD {
            (v - MIN_THREE_BYTE_VALUE_LEAD) as u64 * 0x10000 + d[pos + 1] as u64 * 0x100
                + d[pos + 2] as u64
        } else if v == FOUR_BYTE_VALUE_LEAD {
            d[pos + 1] as u64 * 0x10000 + d[pos + 2] as u64 * 0x100 + d[pos + 3] as u64
        } else {
            d[pos + 1] as u64 * 0x1000000 + d[pos + 2] as u64 * 0x10000 + d[pos + 3] as u64
                * 0x100 + d[pos + 4] as u64
        };
        if delta < (d.len() - pos - width) as u64 {
            Some(pos + width + delta as usize)
        } else {
            None
        }
    }
    /// The step after the selector before the value at `pos` matched.
    fn leaf_next(&mut self, d: &[u8], pos: usize) -> (r: TrieResult)
        ensures
            (*final(self), r) == leaf_spec(d@, old(self).root, pos as int),
    {
        if pos >= d.len() || d[pos] < MIN_VALUE_LEAD {
            self.stop();
            return TrieResult::NoMatch;
        }
        if d[pos] % 2 == 1 {
            // Leave the final value where a reader of values can find it.
            self.pos = Some(pos);
            self.remaining_match_length = None;
            return TrieResult::FinalValue;
        }
        // A non-final value is the jump delta to the rest of the walk.
        match BytesTrie::jump_by_value(d, pos) {
            Some(t) => self.park(d, t),
            None => {
                self.stop();
                TrieResult::NoMatch
            },
        }
    }

    /// The step through a branch node with lead byte `length`, `pos` being
    /// the position after that lead.
    fn branch_next(&mut self, d: &[u8], pos: usize, length: usize, in_unit: u8) -> (r: TrieResult)
        requires
            length < MIN_LINEAR_MATCH,
        ensures
            (*final(self), r) == branch_entry_spec(d@, old(self).root, pos as int, length as int, in_unit),
    {
        let ghost root = self.root;
        let ghost goal = branch_entry_spec(d@, root, pos as int, length as int, in_unit);
        let mut at = pos;
        let mut count = length;
        if count == 0 {
            if at >= d.len() {
                self.stop();
                return TrieResult::NoMatch;
            }
            count = d[at] as usize;
            at = at + 1;
        }
        count = count + 1;
        // The entries are laid out as a binary search tree down to a few
        // entries, then as a list.
        while count > MAX_BRANCH_LINEAR_SUB_NODE_LENGTH
            invariant
                self.root == root,
                root == old(self).root,
                goal == branch_entry_spec(d@, root, pos as int, length as int, in_unit),
                1 <= count <= 0x100,
                branch_spec(d@, root, at as int, count as int, in_unit) == goal,
            decreases count,
        {
            if at >= d.len() {
                self.stop();
                return TrieResult::NoMatch;
            }
            if in_unit < d[at] {
                match BytesTrie::jump_by_delta(d, at + 1) {
                    Some(t) => {
                        count = count / 2;
                        at = t;
                    },
                    None => {
                        self.stop();
                        return TrieResult::NoMatch;
                    },
                }
            } else {
                match BytesTrie::skip_delta(d, at + 1) {
                    Some(q) => {
                        count = count - count / 2;
                        at = q;
                    },
                    None => {
                        self.stop();
                        return TrieResult::NoMatch;
                    },
                }
            }
        }
        assert(linear_spec(d@, root, at as int, count as int, in_unit) == goal);
        loop
            invariant
                self.root == root,
                root == old(self).root,
                goal == branch_entry_spec(d@, root, pos as int, length as int, in_unit),
                1 <= count <= 0x100,
                linear_spec(d@, root, at as int, count as int, in_unit) == goal,
            decreases count,
        {
            if at >= d.len() {
                self.stop();
                return TrieResult::NoMatch;
            }
            if in_unit == d[at] {
                return self.leaf_next(d, at + 1);
            }
            match BytesTrie::skip_value(d, at + 1) {
                Some(q) => {
                    if count <= 2 {
                        // The last entry has no value: the next node follows
                        // its selector.
                        if d[q] == in_unit {
                            return self.park(d, q + 1);
                        }
                        self.stop();
                        return TrieResult::NoMatch;
                    }
                    count = count - 1;
                    at = q;
                },
                None => {
                    self.stop();
                    return TrieResult::NoMatch;
                },
            }
        }
    }

    /// The step of a walk standing on the node at `at`, outside any
    /// linear-match node.
    fn next_impl(&mut self, d: &[u8], pos: usize, in_unit: u8) -> (r: TrieResult)
        ensures
            (*final(self), r) == next_impl_spec(d@, old(self).root, pos as int, in_unit),
    {
        let ghost root = self.root;
        let ghost goal = next_impl_spec(d@, root, pos as int, in_unit);
        let mut at = pos;
        loop
            invariant
                self.root == root,
                root == old(self).root,
                goal == next_impl_spec(d@, root, pos as int, in_unit),
                next_impl_spec(d@, root, at as int, in_unit) == goal,
            decreases d@.len() - at,
        {
            if at >= d.len() {
                self.stop();
                return TrieResult::NoMatch;
            }
            let node = d[at];
            if node < MIN_LINEAR_MATCH {
                return self.branch_next(d, at + 1, node as usize, in_unit);
            } else if node < MIN_VALUE_LEAD {
                if at + 1 >= d.len() || d[at + 1] != in_unit {
                    self.stop();
                    return TrieResult::NoMatch;
                }
                if node == MIN_LINEAR_MATCH {
                    return self.park(d, at + 2);
                }
                self.pos = Some(at + 2);
                self.remaining_match_length = Some((node - MIN_LINEAR_MATCH - 1) as usize);
                return TrieResult::NoValue;
            } else if node % 2 == 1 {
                // A final value: nothing can follow.
                self.stop();
                return TrieResult::NoMatch;
            } else {
                // Pass over an intermediate value.
                match BytesTrie::skip_value(d, at) {
                    Some(q) => {
                        at = q;
                    },
                    None => {
                        self.stop();
                        return TrieResult::NoMatch;
                    },
                }
            }
        }
    }
}

/// A step's outcome `st` is settled for a cursor over the trie at `root`:
/// peeking reports the returned status, `NoMatch` comes exactly with a
/// stopped cursor, and the root is kept.
spec fn settled(st: (BytesTrie, TrieResult), d: Seq<u8>, root: usize) -> bool {
    &&& st.0.current_status(d) == st.1
    &&& (st.1 == TrieResult::NoMatch <==> st.0.pos is None)
    &&& st.0.root == root
}

proof fn lemma_park_settles(d: Seq<u8>, root: usize, p: int)
    requires
        d.len() <= usize::MAX,
    ensures
        settled(park_spec(d, root, p), d, root),
{
}

proof fn lemma_leaf_settles(d: Seq<u8>, root: usize, p: int)
    requires
        d.len() <= usize::MAX,
    ensures
        settled(leaf_spec(d, root, p), d, root),
{
    if 0 <= p < d.len() && d[p] >= 0x20 && d[p] % 2 == 0 {
        if let Some(t) = value_jump_spec(d, p) {
            lemma_park_settles(d, root, t);
        }
    }
}

proof fn lemma_linear_settles(d: Seq<u8>, root: usize, p: int, n: int, unit: u8)
    requires
        d.len() <= usize::MAX,
    ensures
        settled(linear_spec(d, root, p, n, unit), d, root),
    decreases n,
{
    if 0 <= p < d.len() {
        if d[p] == unit {
            lemma_leaf_settles(d, root, p + 1);
        } else if let Some(q) = skip_value_spec(d, p + 1) {
            if n - 1 <= 1 {
                lemma_park_settles(d, root, q + 1);
            } else {
                lemma_linear_settles(d, root, q, n - 1, unit);
            }
        }
    }
}

proof fn lemma_branch_settles(d: Seq<u8>, root: usize, p: int, count: int, unit: u8)
    requires
        d.len() <= usize::MAX,
    ensures
        settled(branch_spec(d, root, p, count, unit), d, root),
    decreases count,
{
    if count <= 5 {
        lemma_linear_settles(d, root, p, count, unit);
    } else if 0 <= p < d.len() {
        if unit < d[p] {
            if let Some(t) = jump_spec(d, p + 1) {
                lemma_branch_settles(d, root, t, count / 2, unit);
            }
        } else if let Some(q) = skip_delta_spec(d, p + 1) {
            lemma_branch_settles(d, root, q, count - count / 2, unit);
        }
    }
}

proof fn lemma_next_impl_settles(d: Seq<u8>, root: usize, p: int, unit: u8)
    requires
        d.len() <= usize::MAX,
    ensures
        settled(next_impl_spec(d, root, p, unit), d, root),
    decreases d.len() - p,
{
    if 0 <= p < d.len() {
        if d[p] < 0x10 {
            if d[p] != 0 {
                lemma_branch_settles(d, root, p + 1, d[p] + 1, unit);
            } else if p + 1 < d.len() {
                lemma_branch_settles(d, root, p + 2, d[p + 1] + 1, unit);
            }
        } else if d[p] < 0x20 {
            lemma_park_settles(d, root, p + 2);
        } else if d[p] % 2 == 0 {
            if let Some(q) = skip_value_spec(d, p) {
                if q > p {
                    lemma_next_impl_settles(d, root, q, unit);
                }
            }
        }
    }
}

impl Trie for BytesTrie {
    open spec fn first_spec(&self, data: Seq<u8>, unit: int) -> (BytesTrie, TrieResult) {
        self.first_step(data, unit)
    }

    open spec fn next_spec(&self, data: Seq<u8>, unit: int) -> (BytesTrie, TrieResult) {
        self.next_step(data, unit)
    }

    open spec fn current_spec(&self, data: Seq<u8>) -> TrieResult {
        self.current_status(data)
    }

    open spec fn reset_spec(&self) -> BytesTrie {
        BytesTrie::initial(self.root)
    }

    open spec fn is_stopped(&self) -> bool {
        self.pos is None
    }

    proof fn lemma_steps_settle(&self, data: Seq<u8>, unit: int) {
        if let Some(b) = unit_byte(unit) {
            lemma_next_impl_settles(data, self.root, self.root as int, b);
            if let Some(p) = self.pos {
                if self.remaining_match_length is None {
                    lemma_next_impl_settles(data, self.root, p as int, b);
                } else {
                    lemma_park_settles(data, self.root, p + 1);
                }
            }
        }
    }

    proof fn lemma_stopped_stays(&self, data: Seq<u8>, unit: int) {
    }

    proof fn lemma_negative_unit(&self, data: Seq<u8>, unit: int) {
    }

    proof fn lemma_first_from_origin(&self, data: Seq<u8>, unit: int) {
    }

    fn first(&mut self, trie_data: &[u8], unit: i32) -> (r: TrieResult) {
        self.remaining_match_length = None;
        if unit < 0 || unit > 0xff {
            self.stop();
            return TrieResult::NoMatch;
        }
        let root = self.root;
        self.next_impl(trie_data, root, unit as u8)
    }

    fn next(&mut self, trie_data: &[u8], unit: i32) -> (r: TrieResult) {
        let pos = match self.pos {
            Some(p) => p,
            None => {
                return TrieResult::NoMatch;
            },
        };
        if unit < 0 || unit > 0xff {
            self.stop();
            return TrieResult::NoMatch;
        }
        let in_byte = unit as u8;
        match self.remaining_match_length {
            Some(length) => {
                // Inside a linear-match node.
                if pos < trie_data.len() && trie_data[pos] == in_byte {
                    if length == 0 {
                        return self.park(trie_data, pos + 1);
                    }
                    self.pos = Some(pos + 1);
                    self.remaining_match_length = Some(length - 1);
                    return TrieResult::NoValue;
                }
                self.stop();
                TrieResult::NoMatch
            },
            None => self.next_impl(trie_data, pos, in_byte),
        }
    }

    fn current(&self, trie_data: &[u8]) -> (r: TrieResult) {
        match self.pos {
            None => TrieResult::NoMatch,
            Some(pos) => {
                if self.remaining_match_length.is_some() {
                    TrieResult::NoValue
                } else if pos < trie_data.len() {
                    let node = trie_data[pos];
                    if node >= MIN_VALUE_LEAD {
                        BytesTrie::value_result(node)
                    } else {
                        TrieResult::NoValue
                    }
                } else {
                    TrieResult::NoMatch
                }
            },
        }
    }

    fn reset(&mut self) {
        self.pos = Some(self.root);
        self.remaining_match_length = None;
    }
}

} // verus!
