use vstd::prelude::*;
use crate::trie::{Trie, TrieResult};

verus! {

// The trie is a sequence of 16-bit units, stored two bytes each in the
// trie data, in the byte order that the cursor was made for. Positions are
// byte offsets. Node leads:
//   0000..002f  branch node: the entry count is lead + 1, or, for lead 0,
//               one more than the following unit;
//   0030..003f  linear-match node: the next (lead - 0x2f) units must match;
//   0040..ffff  a node carrying a value: bit 15 marks a final value, which
//               ends the walk; otherwise the low six bits give the type of
//               the node that follows the value.
const MAX_BRANCH_LINEAR_SUB_NODE_LENGTH: usize = 5;
const MIN_LINEAR_MATCH: u16 = 0x30;
const MIN_VALUE_LEAD: u16 = 0x40;
const NODE_TYPE_COUNT: u16 = 0x40;
const VALUE_IS_FINAL: u16 = 0x8000;

// A value inside a branch, bit 15 masked off.
const MIN_TWO_UNIT_VALUE_LEAD: u16 = 0x4000;
const THREE_UNIT_VALUE_LEAD: u16 = 0x7fff;

// A value carried by a node lead.
const MIN_TWO_UNIT_NODE_VALUE_LEAD: u16 = 0x4040;
const THREE_UNIT_NODE_VALUE_LEAD: u16 = 0x7fc0;

// A jump delta.
const MIN_TWO_UNIT_DELTA_LEAD: u16 = 0xfc00;
const THREE_UNIT_DELTA_LEAD: u16 = 0xffff;

/// Whether a whole unit stands at byte offset `p`.
pub open spec fn has_unit(d: Seq<u8>, p: int) -> bool {
    0 <= p && p + 2 <= d.len()
}

/// The unit at byte offset `p`.
pub open spec fn unit_at(d: Seq<u8>, big_endian: bool, p: int) -> int {
    if big_endian {
        d[p] * 0x100 + d[p + 1]
    } else {
        d[p] + d[p + 1] * 0x100
    }
}

/// Units taken by a value inside a branch whose lead unit, bit 15 masked
/// off, is `lead`.
pub open spec fn value_width(lead: int) -> int {
    if lead < 0x4000 {
        1
    } else if lead < 0x7fff {
        2
    } else {
        3
    }
}

/// The integer of the non-final value inside a branch whose lead stands at `p`.
pub open spec fn value_payload(d: Seq<u8>, big_endian: bool, p: int) -> int {
    let lead = unit_at(d, big_endian, p);
    if lead < 0x4000 {
        lead
    } else if lead < 0x7fff {
        (lead - 0x4000) * 0x10000 + unit_at(d, big_endian, p + 2)
    } else {
        unit_at(d, big_endian, p + 2) * 0x10000 + unit_at(d, big_endian, p + 4)
    }
}

/// Units taken by a value carried by the (non-final) node lead `lead`, the
/// lead included.
pub open spec fn node_value_width(lead: int) -> int {
    if lead < 0x4040 {
        1
    } else if lead < 0x7fc0 {
        2
    } else {
        3
    }
}

/// Units taken by a jump delta whose lead unit is `lead`.
pub open spec fn delta_width(lead: int) -> int {
    if lead < 0xfc00 {
        1
    } else if lead < 0xffff {
        2
    } else {
        3
    }
}

/// The integer of the jump delta whose lead stands at `p`.
pub open spec fn delta_payload(d: Seq<u8>, big_endian: bool, p: int) -> int {
    let lead = unit_at(d, big_endian, p);
    if lead < 0xfc00 {
        lead
    } else if lead < 0xffff {
        (lead - 0xfc00) * 0x10000 + unit_at(d, big_endian, p + 2)
    } else {
        unit_at(d, big_endian, p + 2) * 0x10000 + unit_at(d, big_endian, p + 4)
    }
}

/// The position after the value inside a branch at `p`, when something
/// follows it.
pub open spec fn skip_value_spec(d: Seq<u8>, big_endian: bool, p: int) -> Option<int> {
    if has_unit(d, p) && p + 2 * value_width(unit_at(d, big_endian, p) % 0x8000) < d.len() {
        Some(p + 2 * value_width(unit_at(d, big_endian, p) % 0x8000))
    } else {
        None
    }
}

/// The position after the jump delta at `p`, when something follows it.
pub open spec fn skip_delta_spec(d: Seq<u8>, big_endian: bool, p: int) -> Option<int> {
    if has_unit(d, p) && p + 2 * delta_width(unit_at(d, big_endian, p)) < d.len() {
        Some(p + 2 * delta_width(unit_at(d, big_endian, p)))
    } else {
        None
    }
}

/// Where the jump delta at `p` leads: the end of the delta plus its value
/// in units, when the delta is whole and its target lies inside the trie.
pub open spec fn jump_spec(d: Seq<u8>, big_endian: bool, p: int) -> Option<int> {
    if has_unit(d, p) && p + 2 * delta_width(unit_at(d, big_endian, p)) <= d.len() && p + 2 * (
    delta_width(unit_at(d, big_endian, p)) + delta_payload(d, big_endian, p)) < d.len() {
        Some(p + 2 * (delta_width(unit_at(d, big_endian, p)) + delta_payload(d, big_endian, p)))
    } else {
        None
    }
}

/// Where the non-final value at `p`, read as a jump delta, leads: the end of
/// the value plus its integer in units, when the value is whole and its
/// target lies inside the trie.
pub open spec fn value_jump_spec(d: Seq<u8>, big_endian: bool, p: int) -> Option<int> {
    if has_unit(d, p) && p + 2 * value_width(unit_at(d, big_endian, p)) <= d.len() && p + 2 * (
    value_width(unit_at(d, big_endian, p)) + value_payload(d, big_endian, p)) < d.len() {
        Some(p + 2 * (value_width(unit_at(d, big_endian, p)) + value_payload(d, big_endian, p)))
    } else {
        None
    }
}

/// The status that a value-carrying lead unit announces.
pub open spec fn value_result_spec(lead: int) -> TrieResult {
    if lead >= 0x8000 {
        TrieResult::FinalValue
    } else {
        TrieResult::Intermediate
    }
}

/// The status that the node lead `lead` announces to a walk standing on it.
pub open spec fn classify(lead: int) -> TrieResult {
    if lead >= 0x40 {
        value_result_spec(lead)
    } else {
        TrieResult::NoValue
    }
}

/// A cursor over a trie of 16-bit units.
///
/// `pos` is `None` once the walk has failed; otherwise it is the byte offset
/// in the trie data of the next unit to read. `remaining_match_length` is
/// `Some(k)` while the walk is inside a linear-match node of which `k + 1`
/// units are still to match. `big_endian` gives the byte order of the units.
#[derive(Clone, Copy, Debug)]
pub struct UCharsTrie {
    pub pos: Option<usize>,
    pub root: usize,
    pub remaining_match_length: Option<usize>,
    pub big_endian: bool,
}

/// A cursor over the trie at `root` whose walk has failed.
pub open spec fn stopped(root: usize, big_endian: bool) -> UCharsTrie {
    UCharsTrie { pos: None, root, remaining_match_length: None, big_endian }
}

/// The state and status after a unit that ends a node, when the next node
/// starts at `p`.
pub open spec fn park_spec(d: Seq<u8>, root: usize, be: bool, p: int) -> (UCharsTrie, TrieResult) {
    if has_unit(d, p) {
        (
            UCharsTrie { pos: Some(p as usize), root, remaining_match_length: None, big_endian: be },
            classify(unit_at(d, be, p)),
        )
    } else {
        (stopped(root, be), TrieResult::NoMatch)
    }
}

/// The outcome of matching the selector before the value at `p` inside a
/// branch: a final value ends the walk there; any other value is a jump to
/// the node that continues the walk.
pub open spec fn leaf_spec(d: Seq<u8>, root: usize, be: bool, p: int) -> (UCharsTrie, TrieResult) {
    if !has_unit(d, p) {
        (stopped(root, be), TrieResult::NoMatch)
    } else if unit_at(d, be, p) >= 0x8000 {
        (
            UCharsTrie { pos: Some(p as usize), root, remaining_match_length: None, big_endian: be },
            TrieResult::FinalValue,
        )
    } else {
        match value_jump_spec(d, be, p) {
            Some(t) => park_spec(d, root, be, t),
            None => (stopped(root, be), TrieResult::NoMatch),
        }
    }
}

/// The last entry of a branch: its selector at `p` is followed directly by
/// the node that continues the walk.
pub open spec fn tail_spec(d: Seq<u8>, root: usize, be: bool, p: int, unit: u16) -> (UCharsTrie, TrieResult) {
    if has_unit(d, p) && unit_at(d, be, p) == unit {
        park_spec(d, root, be, p + 2)
    } else {
        (stopped(root, be), TrieResult::NoMatch)
    }
}

/// The linear part of a branch: `n` entries from `p`, each a selector and a
/// value but the last, which is a bare selector.
pub open spec fn linear_spec(d: Seq<u8>, root: usize, be: bool, p: int, n: int, unit: u16) -> (UCharsTrie, TrieResult)
    decreases n,
{
    if !has_unit(d, p) {
        (stopped(root, be), TrieResult::NoMatch)
    } else if unit_at(d, be, p) == unit {
        leaf_spec(d, root, be, p + 2)
    } else {
        match skip_value_spec(d, be, p + 2) {
            Some(q) => if n - 1 <= 1 {
                tail_spec(d, root, be, q, unit)
            } else {
                linear_spec(d, root, be, q, n - 1, unit)
            },
            None => (stopped(root, be), TrieResult::NoMatch),
        }
    }
}

/// A branch of `count` entries from `p`: a binary search over selectors
/// while more than five entries remain, then a linear scan.
pub open spec fn branch_spec(d: Seq<u8>, root: usize, be: bool, p: int, count: int, unit: u16) -> (UCharsTrie, TrieResult)
    decreases count,
{
    if count <= 5 {
        linear_spec(d, root, be, p, count, unit)
    } else if !has_unit(d, p) {
        (stopped(root, be), TrieResult::NoMatch)
    } else if unit < unit_at(d, be, p) {
        match jump_spec(d, be, p + 2) {
            Some(t) => branch_spec(d, root, be, t, count / 2, unit),
            None => (stopped(root, be), TrieResult::NoMatch),
        }
    } else {
        match skip_delta_spec(d, be, p + 2) {
            Some(q) => branch_spec(d, root, be, q, count - count / 2, unit),
            None => (stopped(root, be), TrieResult::NoMatch),
        }
    }
}

/// The node of type `node` (below 0x40) whose lead and value end at `p`.
pub open spec fn typed_node_spec(d: Seq<u8>, root: usize, be: bool, node: int, p: int, unit: u16) -> (UCharsTrie, TrieResult) {
    if node < 0x30 {
        if node != 0 {
            branch_spec(d, root, be, p, node + 1, unit)
        } else if has_unit(d, p) {
            branch_spec(d, root, be, p + 2, unit_at(d, be, p) + 1, unit)
        } else {
            (stopped(root, be), TrieResult::NoMatch)
        }
    } else if has_unit(d, p) && unit_at(d, be, p) == unit {
        if node == 0x30 {
            park_spec(d, root, be, p + 2)
        } else {
            (
                UCharsTrie {
                    pos: Some((p + 2) as usize),
                    root,
                    remaining_match_length: Some((node - 0x31) as usize),
                    big_endian: be,
                },
                TrieResult::NoValue,
            )
        }
    } else {
        (stopped(root, be), TrieResult::NoMatch)
    }
}

/// The step of a walk standing on the node at `p`, outside any linear-match
/// node, for the unit `unit`. A value carried by the node is passed over;
/// a final value ends the walk.
pub open spec fn next_impl_spec(d: Seq<u8>, root: usize, be: bool, p: int, unit: u16) -> (UCharsTrie, TrieResult) {
    if !has_unit(d, p) {
        (stopped(root, be), TrieResult::NoMatch)
    } else if unit_at(d, be, p) < 0x40 {
        typed_node_spec(d, root, be, unit_at(d, be, p), p + 2, unit)
    } else if unit_at(d, be, p) >= 0x8000 || p + 2 * node_value_width(unit_at(d, be, p)) > d.len() {
        (stopped(root, be), TrieResult::NoMatch)
    } else {
        typed_node_spec(
            d,
            root,
            be,
            unit_at(d, be, p) % 0x40,
            p + 2 * node_value_width(unit_at(d, be, p)),
            unit,
        )
    }
}

/// An input unit as a unit of the trie, when it is one.
pub open spec fn unit_value(unit: int) -> Option<u16> {
    if 0 <= unit <= 0xffff {
        Some(unit as u16)
    } else {
        None
    }
}

impl UCharsTrie {
    /// The cursor of a fresh walk over the trie rooted at `root`.
    pub open spec fn initial(root: usize, big_endian: bool) -> UCharsTrie {
        UCharsTrie { pos: Some(root), root, remaining_match_length: None, big_endian }
    }

    /// Restarting from the root with `unit`.
    pub open spec fn first_step(self, d: Seq<u8>, unit: int) -> (UCharsTrie, TrieResult) {
        match unit_value(unit) {
            Some(u) => next_impl_spec(d, self.root, self.big_endian, self.root as int, u),
            None => (stopped(self.root, self.big_endian), TrieResult::NoMatch),
        }
    }

    /// Continuing the walk with `unit`.
    pub open spec fn next_step(self, d: Seq<u8>, unit: int) -> (UCharsTrie, TrieResult) {
        match self.pos {
            None => (self, TrieResult::NoMatch),
            Some(p) => match unit_value(unit) {
                None => (stopped(self.root, self.big_endian), TrieResult::NoMatch),
                Some(u) => match self.remaining_match_length {
                    None => next_impl_spec(d, self.root, self.big_endian, p as int, u),
                    Some(k) => if has_unit(d, p as int) && unit_at(d, self.big_endian, p as int) == u {
                        if k == 0 {
                            park_spec(d, self.root, self.big_endian, p + 2)
                        } else {
                            (
                                UCharsTrie {
                                    pos: Some((p + 2) as usize),
                                    root: self.root,
                                    remaining_match_length: Some((k - 1) as usize),
                                    big_endian: self.big_endian,
                                },
                                TrieResult::NoValue,
                            )
                        }
                    } else {
                        (stopped(self.root, self.big_endian), TrieResult::NoMatch)
                    },
                },
            },
        }
    }

    /// The status of the walk so far.
    pub open spec fn current_status(self, d: Seq<u8>) -> TrieResult {
        match self.pos {
            None => TrieResult::NoMatch,
            Some(p) => if self.remaining_match_length is Some {
                TrieResult::NoValue
            } else if has_unit(d, p as int) {
                classify(unit_at(d, self.big_endian, p as int))
            } else {
                TrieResult::NoMatch
            },
        }
    }
}

impl UCharsTrie {
    /// A cursor at the start of the trie whose first unit stands at byte
    /// offset `offset`, with units in the given byte order.
    pub fn new(offset: usize, big_endian: bool) -> (r: UCharsTrie)
        ensures
            r == UCharsTrie::initial(offset, big_endian),
    {
        UCharsTrie { pos: Some(offset), root: offset, remaining_match_length: None, big_endian }
    }

    /// Ends the walk: every later `next` reports no match.
    fn stop(&mut self)
        ensures
            *final(self) == stopped(old(self).root, old(self).big_endian),
    {
        self.pos = None;
        self.remaining_match_length = None;
    }

    /// The unit at byte offset `pos`.
    fn unit_at(&self, d: &[u8], pos: usize) -> (r: u16)
        requires
            has_unit(d@, pos as int),
        ensures
            r == unit_at(d@, self.big_endian, pos as int),
    {
        if self.big_endian {
            d[pos] as u16 * 0x100 + d[pos + 1] as u16
        } else {
            d[pos] as u16 + d[pos + 1] as u16 * 0x100
        }
    }

    /// The status announced by a value-carrying lead unit.
    fn value_result(node: u16) -> (r: TrieResult)
        ensures
            r == value_result_spec(node as int),
    {
        if node >= VALUE_IS_FINAL {
            TrieResult::FinalValue
        } else {
            TrieResult::Intermediate
        }
    }

    /// Stands the walk on the node at `pos`, after a unit that ended a node.
    fn park(&mut self, d: &[u8], pos: usize) -> (r: TrieResult)
        ensures
            (*final(self), r) == park_spec(d@, old(self).root, old(self).big_endian, pos as int),
    {
        if pos >= d.len() || d.len() - pos < 2 {
            self.stop();
            return TrieResult::NoMatch;
        }
        self.pos = Some(pos);
        self.remaining_match_length = None;
        let node = self.unit_at(d, pos);
        if node >= MIN_VALUE_LEAD {
            UCharsTrie::value_result(node)
        } else {
            TrieResult::NoValue
        }
    }

    /// The position after the value inside a branch at `pos`.
    fn skip_value(&self, d: &[u8], pos: usize) -> (r: Option<usize>)
        ensures
            r matches Some(q) ==> skip_value_spec(d@, self.big_endian, pos as int) == Some(q as int),
            r is None ==> skip_value_spec(d@, self.big_endian, pos as int) is None,
    {
        if pos >= d.len() || d.len() - pos < 2 {
            return None;
        }
        let lead = self.unit_at(d, pos) % VALUE_IS_FINAL;
        let width: usize = if lead < MIN_TWO_UNIT_VALUE_LEAD {
            2
        } else if lead < THREE_UNIT_VALUE_LEAD {
            4
        } else {
            6
        };
        if width < d.len() - pos {
            Some(pos + width)
        } else {
            None
        }
    }

    /// The position after the jump delta at `pos`.
    fn skip_delta(&self, d: &[u8], pos: usize) -> (r: Option<usize>)
        ensures
            r matches Some(q) ==> skip_delta_spec(d@, self.big_endian, pos as int) == Some(q as int),
            r is None ==> skip_delta_spec(d@, self.big_endian, pos as int) is None,
    {
        if pos >= d.len() || d.len() - pos < 2 {
            return None;
        }
        let lead = self.unit_at(d, pos);
        let width: usize = if lead < MIN_TWO_UNIT_DELTA_LEAD {
            2
        } else if lead < THREE_UNIT_DELTA_LEAD {
            4
        } else {
            6
        };
        if width < d.len() - pos {
            Some(pos + width)
        } else {
            None
        }
    }

    /// The target of the jump delta at `pos`: the end of the delta plus its
    /// value in units.
    fn jump_by_delta(&self, d: &[u8], pos: usize) -> (r: Option<usize>)
        ensures
            r matches Some(t) ==> jump_spec(d@, self.big_endian, pos as int) == Some(t as int),
            r is None ==> jump_spec(d@, self.big_endian, pos as int) is None,
    {
        if pos >= d.len() || d.len() - pos < 2 {
            return None;
        }
        let lead = self.unit_at(d, pos);
        let width: usize = if lead < MIN_TWO_UNIT_DELTA_LEAD {
            2
        } else if lead < THREE_UNIT_DELTA_LEAD {
            4
        } else {
            6
        };
        if width > d.len() - pos {
            return None;
        }
        let delta: u64 = if lead < MIN_TWO_UNIT_DELTA_LEAD {
            lead as u64
        } else if lead < THREE_UNIT_DELTA_LEAD {
            (lead - MIN_TWO_UNIT_DELTA_LEAD) as u64 * 0x10000 + self.unit_at(d, pos + 2) as u64
        } else {
            self.unit_at(d, pos + 2) as u64 * 0x10000 + self.unit_at(d, pos + 4) as u64
        };
        if 2 * delta < (d.len() - pos - width) as u64 {
            Some(pos + width + (2 * delta) as usize)
        } else {
            None
        }
    }

    /// The target of the non-final value at `pos` read as a jump delta: the
    /// end of the value plus its integer in units.
    fn jump_by_value(&self, d: &[u8], pos: usize) -> (r: Option<usize>)
        ensures
            r matches Some(t) ==> value_jump_spec(d@, self.big_endian, pos as int) == Some(t as int),
            r is None ==> value_jump_spec(d@, self.big_endian, pos as int) is None,
    {
        if pos >= d.len() || d.len() - pos < 2 {
            return None;
        }
        let lead = self.unit_at(d, pos);
        let width: usize = if lead < MIN_TWO_UNIT_VALUE_LEAD {
            2
        } else if lead < THREE_UNIT_VALUE_LEAD {
            4
        } else {
            6
        };
        if width > d.len() - pos {
            return None;
        }
        let delta: u64 = if lead < MIN_TWO_UNIT_VALUE_LEAD {
            lead as u64
        } else if lead < THREE_UNIT_VALUE_LEAD {
            (lead - MIN_TWO_UNIT_VALUE_LEAD) as u64 * 0x10000 + self.unit_at(d, pos + 2) as u64
        } else {
            self.unit_at(d, pos + 2) as u64 * 0x10000 + self.unit_at(d, pos + 4) as u64
        };
        if 2 * delta < (d.len() - pos - width) as u64 {
            Some(pos + width + (2 * delta) as usize)
        } else {
            None
        }
    }
    /// The step after the selector before the value at `pos` matched.
    fn leaf_next(&mut self, d: &[u8], pos: usize) -> (r: TrieResult)
        ensures
            (*final(self), r) == leaf_spec(d@, old(self).root, old(self).big_endian, pos as int),
    {
        if pos >= d.len() || d.len() - pos < 2 {
            self.stop();
            return TrieResult::NoMatch;
        }
        if self.unit_at(d, pos) >= VALUE_IS_FINAL {
            // Leave the final value where a reader of values can find it.
            self.pos = Some(pos);
            self.remaining_match_length = None;
            return TrieResult::FinalValue;
        }
        // A non-final value is the jump delta to the rest of the walk.
        match self.jump_by_value(d, pos) {
            Some(t) => self.park(d, t),
            None => {
                self.stop();
                TrieResult::NoMatch
            },
        }
    }

    /// The step through a branch node of type `length`, `pos` being the
    /// position after its lead and value.
    fn branch_next(&mut self, d: &[u8], pos: usize, length: u16, in_unit: u16) -> (r: TrieResult)
        requires
            length < MIN_LINEAR_MATCH,
        ensures
            (*final(self), r) == typed_node_spec(
                d@,
                old(self).root,
                old(self).big_endian,
                length as int,
                pos as int,
                in_unit,
            ),
    {
        let ghost root = self.root;
        let ghost be = self.big_endian;
        let ghost goal = typed_node_spec(d@, root, be, length as int, pos as int, in_unit);
        let mut at = pos;
        let mut count: usize = length as usize;
        if count == 0 {
            if at >= d.len() || d.len() - at < 2 {
                self.stop();
                return TrieResult::NoMatch;
            }
            count = self.unit_at(d, at) as usize;
            at = at + 2;
        }
        count = count + 1;
        // The entries are laid out as a binary search tree down to a few
        // entries, then as a list.
        while count > MAX_BRANCH_LINEAR_SUB_NODE_LENGTH
            invariant
                self.root == root,
                self.big_endian == be,
                root == old(self).root,
                be == old(self).big_endian,
                goal == typed_node_spec(d@, root, be, length as int, pos as int, in_unit),
                1 <= count <= 0x10000,
                branch_spec(d@, root, be, at as int, count as int, in_unit) == goal,
            decreases count,
        {
            if at >= d.len() || d.len() - at < 2 {
                self.stop();
                return TrieResult::NoMatch;
            }
            if in_unit < self.unit_at(d, at) {
                match self.jump_by_delta(d, at + 2) {
                    Some(t) => {
                        count = count / 2;
                        at = t;
                    },
                    None => {
                        self.stop();
                        return TrieResult::NoMatch;
                    },
                }
            } else {
                match self.skip_delta(d, at + 2) {
                    Some(q) => {
                        count = count - count / 2;
                        at = q;
                    },
                    None => {
                        self.stop();
                        return TrieResult::NoMatch;
                    },
                }
            }
        }
        loop
            invariant
                self.root == root,
                self.big_endian == be,
                root == old(self).root,
                be == old(self).big_endian,
                goal == typed_node_spec(d@, root, be, length as int, pos as int, in_unit),
                1 <= count <= 0x10000,
                linear_spec(d@, root, be, at as int, count as int, in_unit) == goal,
            decreases count,
        {
            if at >= d.len() || d.len() - at < 2 {
                self.stop();
                return TrieResult::NoMatch;
            }
            if in_unit == self.unit_at(d, at) {
                return self.leaf_next(d, at + 2);
            }
            match self.skip_value(d, at + 2) {
                Some(q) => {
                    if count <= 2 {
                        // The last entry has no value: the next node follows
                        // its selector.
                        if d.len() - q >= 2 && self.unit_at(d, q) == in_unit {
                            return self.park(d, q + 2);
                        }
                        self.stop();
                        return TrieResult::NoMatch;
                    }
                    count = count - 1;
                    at = q;
                },
                None => {
                    self.stop();
                    return TrieResult::NoMatch;
                },
            }
        }
    }

    /// The step of a walk standing on the node at `pos`, outside any
    /// linear-match node.
    fn next_impl(&mut self, d: &[u8], pos: usize, in_unit: u16) -> (r: TrieResult)
        ensures
            (*final(self), r) == next_impl_spec(
                d@,
                old(self).root,
                old(self).big_endian,
                pos as int,
                in_unit,
            ),
    {
        if pos >= d.len() || d.len() - pos < 2 {
            self.stop();
            return TrieResult::NoMatch;
        }
        let mut node = self.unit_at(d, pos);
        let mut at = pos + 2;
        if node >= MIN_VALUE_LEAD {
            if node >= VALUE_IS_FINAL {
                // A final value: nothing can follow.
                self.stop();
                return TrieResult::NoMatch;
            }
            // Pass over the value that the node carries.
            let extra: usize = if node < MIN_TWO_UNIT_NODE_VALUE_LEAD {
                0
            } else if node < THREE_UNIT_NODE_VALUE_LEAD {
                2
            } else {
                4
            };
            if extra > d.len() - at {
                self.stop();
                return TrieResult::NoMatch;
            }
            at = at + extra;
            node = node % NODE_TYPE_COUNT;
        }
        if node < MIN_LINEAR_MATCH {
            return self.branch_next(d, at, node, in_unit);
        }
        if at >= d.len() || d.len() - at < 2 || self.unit_at(d, at) != in_unit {
            self.stop();
            return TrieResult::NoMatch;
        }
        if node == MIN_LINEAR_MATCH {
            return self.park(d, at + 2);
        }
        self.pos = Some(at + 2);
        self.remaining_match_length = Some((node - MIN_LINEAR_MATCH - 1) as usize);
        TrieResult::NoValue
    }
}

/// A step's outcome `st` is settled for a cursor over the trie at `root`:
/// peeking reports the returned status, `NoMatch` comes exactly with a
/// stopped cursor, and the root and byte order are kept.
spec fn settled(st: (UCharsTrie, TrieResult), d: Seq<u8>, root: usize, be: bool) -> bool {
    &&& st.0.current_status(d) == st.1
    &&& (st.1 == TrieResult::NoMatch <==> st.0.pos is None)
    &&& st.0.root == root
    &&& st.0.big_endian == be
}

proof fn lemma_park_settles(d: Seq<u8>, root: usize, be: bool, p: int)
    requires
        d.len() <= usize::MAX,
    ensures
        settled(park_spec(d, root, be, p), d, root, be),
{
}

proof fn lemma_leaf_settles(d: Seq<u8>, root: usize, be: bool, p: int)
    requires
        d.len() <= usize::MAX,
    ensures
        settled(leaf_spec(d, root, be, p), d, root, be),
{
    if has_unit(d, p) && unit_at(d, be, p) < 0x8000 {
        if let Some(t) = value_jump_spec(d, be, p) {
            lemma_park_settles(d, root, be, t);
        }
    }
}

proof fn lemma_linear_settles(d: Seq<u8>, root: usize, be: bool, p: int, n: int, unit: u16)
    requires
        d.len() <= usize::MAX,
    ensures
        settled(linear_spec(d, root, be, p, n, unit), d, root, be),
    decreases n,
{
    if has_unit(d, p) {
        if unit_at(d, be, p) == unit {
            lemma_leaf_settles(d, root, be, p + 2);
        } else if let Some(q) = skip_value_spec(d, be, p + 2) {
            if n - 1 <= 1 {
                lemma_park_settles(d, root, be, q + 2);
            } else {
                lemma_linear_settles(d, root, be, q, n - 1, unit);
            }
        }
    }
}

proof fn lemma_branch_settles(d: Seq<u8>, root: usize, be: bool, p: int, count: int, unit: u16)
    requires
        d.len() <= usize::MAX,
    ensures
        settled(branch_spec(d, root, be, p, count, unit), d, root, be),
    decreases count,
{
    if count <= 5 {
        lemma_linear_settles(d, root, be, p, count, unit);
    } else if has_unit(d, p) {
        if unit < unit_at(d, be, p) {
            if let Some(t) = jump_spec(d, be, p + 2) {
                lemma_branch_settles(d, root, be, t, count / 2, unit);
            }
        } else if let Some(q) = skip_delta_spec(d, be, p + 2) {
            lemma_branch_settles(d, root, be, q, count - count / 2, unit);
        }
    }
}

proof fn lemma_typed_node_settles(d: Seq<u8>, root: usize, be: bool, node: int, p: int, unit: u16)
    requires
        d.len() <= usize::MAX,
    ensures
        settled(typed_node_spec(d, root, be, node, p, unit), d, root, be),
{
    if node < 0x30 {
        if node != 0 {
            lemma_branch_settles(d, root, be, p, node + 1, unit);
        } else if has_unit(d, p) {
            lemma_branch_settles(d, root, be, p + 2, unit_at(d, be, p) + 1, unit);
        }
    } else {
        lemma_park_settles(d, root, be, p + 2);
    }
}

proof fn lemma_next_impl_settles(d: Seq<u8>, root: usize, be: bool, p: int, unit: u16)
    requires
        d.len() <= usize::MAX,
    ensures
        settled(next_impl_spec(d, root, be, p, unit), d, root, be),
{
    if has_unit(d, p) {
        let node = unit_at(d, be, p);
        lemma_typed_node_settles(d, root, be, node, p + 2, unit);
        lemma_typed_node_settles(d, root, be, node % 0x40, p + 2 * node_value_width(node), unit);
    }
}

impl Trie for UCharsTrie {
    open spec fn first_spec(&self, data: Seq<u8>, unit: int) -> (UCharsTrie, TrieResult) {
        self.first_step(data, unit)
    }

    open spec fn next_spec(&self, data: Seq<u8>, unit: int) -> (UCharsTrie, TrieResult) {
        self.next_step(data, unit)
    }

    open spec fn current_spec(&self, data: Seq<u8>) -> TrieResult {
        self.current_status(data)
    }

    open spec fn reset_spec(&self) -> UCharsTrie {
        UCharsTrie::initial(self.root, self.big_endian)
    }

    open spec fn is_stopped(&self) -> bool {
        self.pos is None
    }

    proof fn lemma_steps_settle(&self, data: Seq<u8>, unit: int) {
        if let Some(u) = unit_value(unit) {
            lemma_next_impl_settles(data, self.root, self.big_endian, self.root as int, u);
            if let Some(p) = self.pos {
                if self.remaining_match_length is None {
                    lemma_next_impl_settles(data, self.root, self.big_endian, p as int, u);
                } else {
                    lemma_park_settles(data, self.root, self.big_endian, p + 2);
                }
            }
        }
    }

    proof fn lemma_stopped_stays(&self, data: Seq<u8>, unit: int) {
    }

    proof fn lemma_negative_unit(&self, data: Seq<u8>, unit: int) {
    }

    proof fn lemma_first_from_origin(&self, data: Seq<u8>, unit: int) {
    }

    fn first(&mut self, trie_data: &[u8], unit: i32) -> (r: TrieResult) {
        self.remaining_match_length = None;
        if unit < 0 || unit > 0xffff {
            self.stop();
            return TrieResult::NoMatch;
        }
        let root = self.root;
        self.next_impl(trie_data, root, unit as u16)
    }

    fn next(&mut self, trie_data: &[u8], unit: i32) -> (r: TrieResult) {
        let pos = match self.pos {
            Some(p) => p,
            None => {
                return TrieResult::NoMatch;
            },
        };
        if unit < 0 || unit > 0xffff {
            self.stop();
            return TrieResult::NoMatch;
        }
        let in_unit = unit as u16;
        match self.remaining_match_length {
            Some(length) => {
                // Inside a linear-match node.
                if pos < trie_data.len() && trie_data.len() - pos >= 2 && self.unit_at(
                    trie_data,
                    pos,
                ) == in_unit {
                    if length == 0 {
                        return self.park(trie_data, pos + 2);
                    }
                    self.pos = Some(pos + 2);
                    self.remaining_match_length = Some(length - 1);
                    return TrieResult::NoValue;
                }
                self.stop();
                TrieResult::NoMatch
            },
            None => self.next_impl(trie_data, pos, in_unit),
        }
    }

    fn current(&self, trie_data: &[u8]) -> (r: TrieResult) {
        match self.pos {
            None => TrieResult::NoMatch,
            Some(pos) => {
                if self.remaining_match_length.is_some() {
                    TrieResult::NoValue
                } else if pos < trie_data.len() && trie_data.len() - pos >= 2 {
                    let node = self.unit_at(trie_data, pos);
                    if node >= MIN_VALUE_LEAD {
                        UCharsTrie::value_result(node)
                    } else {
                        TrieResult::NoValue
                    }
                } else {
                    TrieResult::NoMatch
                }
            },
        }
    }

    fn reset(&mut self) {
        self.pos = Some(self.root);
        self.remaining_match_length = None;
    }
}

} // verus!
