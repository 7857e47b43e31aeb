use vstd::prelude::*;

use crate::lexis::token::{TokenRule, TokenSet, EOI};

verus! {

broadcast use vstd::array::group_array_axioms;

/// The maximum number of token groups a [Recovery] configuration can address.
pub const GROUPS_LIMIT: u8 = 4;

/// The rule of the token at `position` of `tokens`, or [EOI] past the end.
pub open spec fn token_at(tokens: Seq<TokenRule>, position: int) -> TokenRule {
    if 0 <= position < tokens.len() {
        tokens[position]
    } else {
        EOI
    }
}

/// A syntax error recovery strategy.
#[derive(Clone, Copy, PartialEq, Eq, Structural, Hash, PartialOrd, Ord, Debug)]
#[non_exhaustive]
pub enum RecoveryResult {
    /// The parser recovered assuming that a required token was missing.
    InsertRecover,
    /// The parser skipped unexpected tokens and met an expected one.
    PanicRecover,
    /// The parser skipped unexpected tokens until the end of input.
    UnexpectedEOI,
    /// The parser met a token that probably belongs to a parent rule.
    UnexpectedToken,
}

impl RecoveryResult {
    /// Returns true if the recovery was successful.
    pub fn recovered(&self) -> (result: bool)
        ensures
            result == (*self == RecoveryResult::InsertRecover || *self == RecoveryResult::PanicRecover),
    {
        match self {
            RecoveryResult::InsertRecover | RecoveryResult::PanicRecover => true,
            _ => false,
        }
    }
}

/// A stack of group identifiers that keeps its first entries in place and
/// moves to the heap when they overflow.
#[allow(inconsistent_fields)]
pub enum GroupStack {
    Inline { vec: [u8; 8], length: usize },
    Heap { vec: Vec<u8> },
}

/// The number of group identifiers a [GroupStack] keeps in place.
pub const GROUP_STACK_INLINE: usize = 8;

impl GroupStack {
    /// Well-formedness: the in-place length never exceeds the buffer.
    pub open spec fn wf(&self) -> bool {
        match self {
            GroupStack::Inline { length, .. } => *length <= GROUP_STACK_INLINE,
            GroupStack::Heap { .. } => true,
        }
    }

    /// The stacked identifiers, bottom first.
    pub open spec fn view(&self) -> Seq<u8> {
        match self {
            GroupStack::Inline { vec, length } => vec@.subrange(0, *length as int),
            GroupStack::Heap { vec } => vec@,
        }
    }

    /// Creates an empty stack, kept in place.
    pub fn new() -> (result: Self)
        ensures
            result.wf(),
            result is Inline,
            result@ == Seq::<u8>::empty(),
    {
        let result = GroupStack::Inline { vec: [0; 8], length: 0 };
        assert(result@ =~= Seq::<u8>::empty());
        result
    }

    /// Pushes `index` on top of the stack.
    pub fn push(&mut self, index: u8)
        requires
            old(self).wf(),
        ensures
            final(self).wf(),
            final(self)@ == old(self)@.push(index),
    {
        let ghost before = self@;
        let moved: Option<Vec<u8>> = match self {
            GroupStack::Inline { vec, length } => {
                if *length < GROUP_STACK_INLINE {
                    vec[*length] = index;
                    *length = *length + 1;
                    None
                } else {
                    let mut heap: Vec<u8> = Vec::new();
                    let mut i: usize = 0;
                    while i < GROUP_STACK_INLINE
                        invariant
                            0 <= i <= GROUP_STACK_INLINE,
                            heap@ == vec@.subrange(0, i as int),
                        decreases GROUP_STACK_INLINE - i,
                    {
                        heap.push(vec[i]);
                        assert(heap@ =~= vec@.subrange(0, i + 1));
                        i = i + 1;
                    }
                    heap.push(index);
                    Some(heap)
                }
            },
            GroupStack::Heap { vec } => {
                vec.push(index);
                None
            },
        };
        if let Some(heap) = moved {
            *self = GroupStack::Heap { vec: heap };
        }
        assert(self@ =~= before.push(index));
    }

    /// Pops the top identifier, or returns `None` on an empty stack.
    pub fn pop(&mut self) -> (result: Option<u8>)
        requires
            old(self).wf(),
        ensures
            final(self).wf(),
            old(self)@.len() == 0 ==> result is None && final(self)@ == old(self)@,
            old(self)@.len() > 0 ==> result == Some(old(self)@.last()) && final(self)@
                == old(self)@.drop_last(),
    {
        let ghost before = self@;
        let result = match self {
            GroupStack::Inline { vec, length } => {
                if *length > 0 {
                    *length = *length - 1;
                    let item = vec[*length];
                    Some(item)
                } else {
                    None
                }
            },
            GroupStack::Heap { vec } => vec.pop(),
        };
        assert(before.len() > 0 ==> self@ =~= before.drop_last());
        result
    }

    /// Removes every identifier from the stack.
    pub fn clear(&mut self)
        requires
            old(self).wf(),
        ensures
            final(self).wf(),
            final(self)@ == Seq::<u8>::empty(),
    {
        match self {
            GroupStack::Inline { length, .. } => {
                *length = 0;
            },
            GroupStack::Heap { vec } => {
                vec.clear();
            },
        }
        assert(self@ =~= Seq::<u8>::empty());
    }

    /// Returns true if the stack holds no identifiers.
    pub fn is_empty(&self) -> (result: bool)
        requires
            self.wf(),
        ensures
            result == (self@.len() == 0),
    {
        match self {
            GroupStack::Inline { length, .. } => *length == 0,
            GroupStack::Heap { vec } => vec.len() == 0,
        }
    }
}

/// The outcome of matching a token against the configured groups: the
/// first group whose open or close bound is the token, and whether it is
/// the open bound.
pub open spec fn match_group(groups: Seq<(TokenRule, TokenRule)>, rule: TokenRule, from: int) -> Option<(int, bool)>
    decreases groups.len() - from,
{
    if from < 0 || from >= groups.len() {
        None
    } else if groups[from].0 == rule {
        Some((from, true))
    } else if groups[from].1 == rule {
        Some((from, false))
    } else {
        match_group(groups, rule, from + 1)
    }
}

/// Scans the tokens after an open bound at `position`, starting at
/// `distance`, with the given stack of open groups. Returns the distance at
/// which the scan stops and the stack left at that point; the group is
/// balanced when the stack is empty.
pub open spec fn scan_group(
    groups: Seq<(TokenRule, TokenRule)>,
    tokens: Seq<TokenRule>,
    position: int,
    distance: int,
    stack: Seq<u8>,
) -> (int, Seq<u8>)
    decreases tokens.len() + 1 - (position + distance),
{
    let rule = token_at(tokens, position + distance);
    if rule == EOI || position + distance >= tokens.len() || position < 0 || distance < 1 {
        (distance, stack)
    } else {
        match match_group(groups, rule, 0) {
            None => scan_group(groups, tokens, position, distance + 1, stack),
            Some((id, true)) => scan_group(groups, tokens, position, distance + 1, stack.push(id as u8)),
            Some((id, false)) => {
                if stack.len() == 0 {
                    (distance, stack)
                } else if stack.last() != id as u8 {
                    (distance, stack)
                } else if stack.len() == 1 {
                    (distance, stack.drop_last())
                } else {
                    scan_group(groups, tokens, position, distance + 1, stack.drop_last())
                }
            },
        }
    }
}

/// The position after trying to skip a balanced group that opens at
/// `position` with group `id`: the position of its close bound when the
/// group is balanced, `position` otherwise.
pub open spec fn skip_group(
    groups: Seq<(TokenRule, TokenRule)>,
    tokens: Seq<TokenRule>,
    position: int,
    id: u8,
) -> int {
    let (distance, stack) = scan_group(groups, tokens, position, 1, seq![id]);
    if stack.len() == 0 {
        if position + distance <= tokens.len() {
            position + distance
        } else {
            tokens.len() as int
        }
    } else {
        position
    }
}

/// A scan never stops before the distance it starts from.
pub proof fn lemma_scan_distance(
    groups: Seq<(TokenRule, TokenRule)>,
    tokens: Seq<TokenRule>,
    position: int,
    distance: int,
    stack: Seq<u8>,
)
    ensures
        scan_group(groups, tokens, position, distance, stack).0 >= distance,
    decreases tokens.len() + 1 - (position + distance),
{
    let rule = token_at(tokens, position + distance);
    if rule == EOI || position + distance >= tokens.len() || position < 0 || distance < 1 {
    } else {
        match match_group(groups, rule, 0) {
            None => lemma_scan_distance(groups, tokens, position, distance + 1, stack),
            Some((id, true)) => lemma_scan_distance(groups, tokens, position, distance + 1, stack.push(id as u8)),
            Some((id, false)) => {
                if stack.len() == 0 {
                } else if stack.last() != id as u8 {
                } else if stack.len() == 1 {
                } else {
                    lemma_scan_distance(groups, tokens, position, distance + 1, stack.drop_last())
                }
            },
        }
    }
}

/// The first group whose open bound is `rule`.
pub open spec fn open_group(groups: Seq<(TokenRule, TokenRule)>, rule: TokenRule, from: int) -> Option<int>
    decreases groups.len() - from,
{
    if from < 0 || from >= groups.len() {
        None
    } else if groups[from].0 == rule {
        Some(from)
    } else {
        open_group(groups, rule, from + 1)
    }
}

/// [open_group] finds the first group, from `from` on, whose open bound is
/// `rule`.
pub proof fn lemma_open_group(groups: Seq<(TokenRule, TokenRule)>, rule: TokenRule, from: int)
    requires
        0 <= from,
    ensures
        open_group(groups, rule, from) matches Some(g) ==> from <= g < groups.len() && groups[g].0 == rule,
        open_group(groups, rule, from) is None ==> forall|h: int| from <= h < groups.len() ==> #[trigger] groups[h].0 != rule,
    decreases groups.len() - from,
{
    if from < groups.len() && groups[from].0 != rule {
        lemma_open_group(groups, rule, from + 1);
    }
}

/// A configuration of the panic-mode syntax error recovery: halting tokens
/// and groups of tokens that are skipped as a whole.
#[derive(Clone, Copy, PartialEq, Eq)]
pub struct Recovery {
    groups: [(TokenRule, TokenRule); 4],
    groups_len: u8,
    unexpected: TokenSet,
}

/// True when no token from `position` up to the end of input (which reads
/// as [EOI]) is in `until`.
pub open spec fn none_until(tokens: Seq<TokenRule>, position: int, until: Set<TokenRule>) -> bool {
    forall|k: int| position <= k <= tokens.len() ==> !until.contains(#[trigger] token_at(tokens, k))
}

impl Recovery {
    /// Well-formedness: at most [GROUPS_LIMIT] groups, each with two
    /// different bounds, and no bound shared between groups.
    pub closed spec fn wf(self) -> bool {
        &&& self.groups_len <= GROUPS_LIMIT
        &&& forall|g: int| 0 <= g < self.groups_len ==> #[trigger] self.groups@[g].0 != self.groups@[g].1
        &&& forall|g: int, h: int|
            0 <= g < h < self.groups_len ==> {
                &&& #[trigger] self.groups@[g].0 != #[trigger] self.groups@[h].0
                &&& self.groups@[g].0 != self.groups@[h].1
                &&& self.groups@[g].1 != self.groups@[h].0
                &&& self.groups@[g].1 != self.groups@[h].1
            }
    }

    /// The configured groups as (open, close) pairs, in configuration order.
    pub closed spec fn spec_groups(self) -> Seq<(TokenRule, TokenRule)> {
        self.groups@.subrange(0, self.groups_len as int)
    }

    /// The configured halting tokens.
    pub closed spec fn spec_unexpected(self) -> Set<TokenRule> {
        self.unexpected@
    }

    /// True when `rule` is a bound of one of the configured groups.
    pub open spec fn is_bound(self, rule: TokenRule) -> bool {
        exists|g: int| 0 <= g < self.spec_groups().len()
            && (#[trigger] self.spec_groups()[g].0 == rule || self.spec_groups()[g].1 == rule)
    }

    /// Creates a configuration without halting tokens and without groups.
    pub fn unlimited() -> (result: Self)
        ensures
            result.wf(),
            result.spec_groups() == Seq::<(TokenRule, TokenRule)>::empty(),
            result.spec_unexpected() == Set::<TokenRule>::empty(),
            forall|tokens: Seq<TokenRule>, position: int, until: Set<TokenRule>|
                0 <= position <= tokens.len() ==> #[trigger] result.recover_from(tokens, position, until).0
                    != RecoveryResult::UnexpectedToken,
            forall|tokens: Seq<TokenRule>, position: int, until: Set<TokenRule>|
                0 <= position <= tokens.len() && none_until(tokens, position, until)
                    ==> #[trigger] result.recover_from(tokens, position, until) == (
                    RecoveryResult::UnexpectedEOI,
                    tokens.len() as int,
                ),
    {
        let result = Recovery { groups: [(0, 0); 4], groups_len: 0, unexpected: TokenSet::empty() };
        assert(result.spec_groups() =~= Seq::<(TokenRule, TokenRule)>::empty());
        proof {
            assert forall|tokens: Seq<TokenRule>, position: int, until: Set<TokenRule>|
                0 <= position <= tokens.len() implies (#[trigger] result.recover_from(tokens, position, until)).0
                    != RecoveryResult::UnexpectedToken && (none_until(tokens, position, until)
                    ==> result.recover_from(tokens, position, until) == (
                    RecoveryResult::UnexpectedEOI,
                    tokens.len() as int,
                )) by {
                law_unlimited_recovery(result, tokens, position, until);
            }
        }
        result
    }

    /// Adds a group bounded by the `open` and `close` tokens.
    ///
    /// The bounds must differ from each other and from the bounds of the
    /// groups configured before, and fewer than [GROUPS_LIMIT] groups may be
    /// configured already.
    pub fn group(self, open: TokenRule, close: TokenRule) -> (result: Self)
        requires
            self.wf(),
            open != close,
            !self.is_bound(open),
            !self.is_bound(close),
            self.spec_groups().len() < GROUPS_LIMIT,
        ensures
            result.wf(),
            result.spec_groups() == self.spec_groups().push((open, close)),
            result.spec_unexpected() == self.spec_unexpected(),
    {
        let mut result = self;
        let index = self.groups_len as usize;
        result.groups[index] = (open, close);
        result.groups_len = self.groups_len + 1;
        proof {
            assert(result.spec_groups() =~= self.spec_groups().push((open, close)));
            assert forall|g: int, h: int| 0 <= g < h < result.groups_len implies {
                &&& #[trigger] result.groups@[g].0 != #[trigger] result.groups@[h].0
                &&& result.groups@[g].0 != result.groups@[h].1
                &&& result.groups@[g].1 != result.groups@[h].0
                &&& result.groups@[g].1 != result.groups@[h].1
            } by {
                if h == index {
                    assert(self.spec_groups()[g] == result.groups@[g]);
                    if result.groups@[g].0 == open || result.groups@[g].1 == open {
                        assert(self.is_bound(open));
                    }
                    if result.groups@[g].0 == close || result.groups@[g].1 == close {
                        assert(self.is_bound(close));
                    }
                }
            }
        }
        result
    }

    /// Adds a halting token.
    pub fn unexpected(self, rule: TokenRule) -> (result: Self)
        requires
            self.wf(),
        ensures
            result.wf(),
            result.spec_groups() == self.spec_groups(),
            result.spec_unexpected() == self.spec_unexpected().insert(rule),
            forall|tokens: Seq<TokenRule>, position: int, until: Set<TokenRule>|
                0 <= position <= tokens.len() && token_at(tokens, position) == rule && !until.contains(rule)
                    ==> #[trigger] result.recover_from(tokens, position, until) == (
                    RecoveryResult::UnexpectedToken,
                    position,
                ),
    {
        Recovery { groups: self.groups, groups_len: self.groups_len, unexpected: self.unexpected.insert(rule) }
    }

    /// Adds every token of `set` to the halting tokens.
    pub fn unexpected_set(self, set: TokenSet) -> (result: Self)
        requires
            self.wf(),
        ensures
            result.wf(),
            result.spec_groups() == self.spec_groups(),
            result.spec_unexpected() == self.spec_unexpected().union(set@),
    {
        Recovery { groups: self.groups, groups_len: self.groups_len, unexpected: self.unexpected.union(set) }
    }

    /// The outcome of the panic-mode recovery over `tokens` from `position`:
    /// the kind of recovery and the position of the token the recovery
    /// stopped at (which it does not consume).
    pub open spec fn recover_from(self, tokens: Seq<TokenRule>, position: int, until: Set<TokenRule>) -> (RecoveryResult, int)
        decreases tokens.len() + 1 - position,
    {
        let rule = token_at(tokens, position);
        if position < 0 || position > tokens.len() {
            (RecoveryResult::UnexpectedEOI, position)
        } else if until.contains(rule) {
            (RecoveryResult::PanicRecover, position)
        } else if self.spec_unexpected().contains(rule) {
            (RecoveryResult::UnexpectedToken, position)
        } else {
            let next = match open_group(self.spec_groups(), rule, 0) {
                Some(id) => skip_group(self.spec_groups(), tokens, position, id as u8),
                None => position,
            };
            proof {
                lemma_scan_distance(self.spec_groups(), tokens, position, 1, seq![0u8]);
                if let Some(id) = open_group(self.spec_groups(), rule, 0) {
                    lemma_scan_distance(self.spec_groups(), tokens, position, 1, seq![id as u8]);
                }
            }
            if next >= tokens.len() {
                (RecoveryResult::UnexpectedEOI, next)
            } else {
                self.recover_from(tokens, next + 1, until)
            }
        }
    }

    /// Finds the first group whose open or close bound is `rule`.
    fn find_group(&self, rule: TokenRule) -> (result: Option<(u8, bool)>)
        requires
            self.wf(),
        ensures
            match_group(self.spec_groups(), rule, 0) matches Some((id, is_open)) ==> result == Some((id as u8, is_open)),
            match_group(self.spec_groups(), rule, 0) is None ==> result is None,
    {
        let mut group_id: u8 = 0;
        while group_id < self.groups_len
            invariant
                self.wf(),
                0 <= group_id <= self.groups_len,
                match_group(self.spec_groups(), rule, 0) == match_group(self.spec_groups(), rule, group_id as int),
            decreases self.groups_len - group_id,
        {
            let (open, close) = self.groups[group_id as usize];
            assert(self.spec_groups()[group_id as int] == (open, close));
            if open == rule {
                return Some((group_id, true));
            }
            if close == rule {
                return Some((group_id, false));
            }
            group_id = group_id + 1;
        }
        None
    }

    /// Tries to skip a balanced group whose open bound is the token at
    /// `position`; returns the position of the group's close bound when the
    /// group is balanced, `position` otherwise.
    fn try_skip_group(&self, tokens: &[TokenRule], position: usize, stack: &mut GroupStack, group_id: u8) -> (result: usize)
        requires
            self.wf(),
            old(stack).wf(),
            position <= tokens@.len(),
            tokens@.len() < usize::MAX,
        ensures
            final(stack).wf(),
            result == skip_group(self.spec_groups(), tokens@, position as int, group_id),
    {
        let ghost groups = self.spec_groups();
        stack.clear();
        stack.push(group_id);
        assert(stack@ =~= seq![group_id]);
        let mut distance: usize = 0;
        loop
            invariant_except_break
                stack@.len() > 0,
                position + distance <= tokens@.len(),
                scan_group(groups, tokens@, position as int, 1, seq![group_id])
                    == scan_group(groups, tokens@, position as int, distance + 1, stack@),
            invariant
                self.wf(),
                groups == self.spec_groups(),
                stack.wf(),
                position <= tokens@.len(),
                tokens@.len() < usize::MAX,
            ensures
                scan_group(groups, tokens@, position as int, 1, seq![group_id]) == (distance as int, stack@),
                stack.wf(),
                stack@.len() == 0 ==> position + distance < tokens@.len(),
            decreases tokens@.len() + 1 - (position + distance),
        {
            distance = distance + 1;
            let at = position + distance;
            let rule = if at < tokens.len() {
                tokens[at]
            } else {
                EOI
            };
            if rule == EOI {
                break;
            }
            match self.find_group(rule) {
                None => {},
                Some((id, true)) => {
                    stack.push(id);
                },
                Some((id, false)) => {
                    let ghost before = stack@;
                    match stack.pop() {
                        None => {
                            break;
                        },
                        Some(top) => {
                            if top != id {
                                stack.push(top);
                                assert(stack@ =~= before);
                                break;
                            }
                            if stack.is_empty() {
                                break;
                            }
                        },
                    }
                },
            }
        }
        if stack.is_empty() {
            position + distance
        } else {
            position
        }
    }

    /// Runs the panic-mode recovery over a token stream.
    ///
    /// `tokens` holds the rules of the input tokens; the parser stands at
    /// `position`, and every position past the last token reads as [EOI].
    /// The recovery consumes tokens until it meets a token of `until`
    /// ([RecoveryResult::PanicRecover]), a halting token outside of any
    /// balanced group ([RecoveryResult::UnexpectedToken]), or the end of
    /// input ([RecoveryResult::UnexpectedEOI]). Balanced groups are skipped
    /// as a whole. The token it stops at is not consumed; the returned
    /// position is that of the stopping token.
    pub fn recover(&self, tokens: &[TokenRule], position: usize, until: &TokenSet) -> (result: (RecoveryResult, usize))
        requires
            self.wf(),
            position <= tokens@.len(),
            tokens@.len() < usize::MAX,
        ensures
            result.0 == self.recover_from(tokens@, position as int, until@).0,
            result.1 == self.recover_from(tokens@, position as int, until@).1,
    {
        let ghost groups = self.spec_groups();
        let mut stack = GroupStack::new();
        let mut p = position;
        loop
            invariant
                self.wf(),
                groups == self.spec_groups(),
                stack.wf(),
                p <= tokens@.len(),
                tokens@.len() < usize::MAX,
                self.recover_from(tokens@, position as int, until@) == self.recover_from(tokens@, p as int, until@),
            decreases tokens@.len() + 1 - p,
        {
            let rule = if p < tokens.len() {
                tokens[p]
            } else {
                EOI
            };
            assert(rule == token_at(tokens@, p as int));
            if until.contains(rule) {
                return (RecoveryResult::PanicRecover, p);
            }
            if self.unexpected.contains(rule) {
                return (RecoveryResult::UnexpectedToken, p);
            }
            proof {
                lemma_open_group(groups, rule, 0);
            }
            let mut next = p;
            let mut group_id: u8 = 0;
            while group_id < self.groups_len
                invariant
                    self.wf(),
                    groups == self.spec_groups(),
                    stack.wf(),
                    p <= tokens@.len(),
                    next <= tokens@.len(),
                    tokens@.len() < usize::MAX,
                    0 <= group_id <= self.groups_len,
                    open_group(groups, rule, 0) matches Some(g) ==> 0 <= g < groups.len() && groups[g].0 == rule,
                    open_group(groups, rule, 0) is None ==> forall|h: int| 0 <= h < groups.len() ==> #[trigger] groups[h].0 != rule,
                    match open_group(groups, rule, 0) {
                        Some(g) => if g < group_id {
                            next == skip_group(groups, tokens@, p as int, g as u8)
                        } else {
                            next == p
                        },
                        None => next == p,
                    },
                decreases self.groups_len - group_id,
            {
                let open = self.groups[group_id as usize].0;
                assert(groups[group_id as int].0 == open);
                if open == rule {
                    proof {
                        if let Some(g) = open_group(groups, rule, 0) {
                            if g < group_id {
                                assert(groups[g].0 != groups[group_id as int].0);
                            }
                        }
                    }
                    next = self.try_skip_group(tokens, next, &mut stack, group_id);
                }
                group_id = group_id + 1;
            }
            proof {
                lemma_scan_distance(groups, tokens@, p as int, 1, seq![0u8]);
                if let Some(id) = open_group(groups, rule, 0) {
                    lemma_scan_distance(groups, tokens@, p as int, 1, seq![id as u8]);
                }
            }
            if next >= tokens.len() {
                return (RecoveryResult::UnexpectedEOI, next);
            }
            p = next + 1;
        }
    }
}

} // verus!

verus! {

/// What every panic-mode recovery ends with: it never reports an insertion,
/// it stops at or after its start and never past the end of input, and
/// - on [RecoveryResult::PanicRecover] it stands at a token of `until`,
/// - on [RecoveryResult::UnexpectedToken] it stands at a halting token that
///   is not in `until`,
/// - on [RecoveryResult::UnexpectedEOI] it stands at the end of input.
pub proof fn law_recover_outcome(recovery: Recovery, tokens: Seq<TokenRule>, position: int, until: Set<TokenRule>)
    requires
        recovery.wf(),
        0 <= position <= tokens.len(),
    ensures
        ({
            let (kind, stop) = recovery.recover_from(tokens, position, until);
            &&& position <= stop <= tokens.len()
            &&& kind != RecoveryResult::InsertRecover
            &&& kind == RecoveryResult::PanicRecover ==> until.contains(token_at(tokens, stop))
            &&& kind == RecoveryResult::UnexpectedToken ==> !until.contains(token_at(tokens, stop))
                && recovery.spec_unexpected().contains(token_at(tokens, stop))
            &&& kind == RecoveryResult::UnexpectedEOI ==> stop == tokens.len()
        }),
    decreases tokens.len() + 1 - position,
{
    let rule = token_at(tokens, position);
    if until.contains(rule) || recovery.spec_unexpected().contains(rule) {
    } else {
        let groups = recovery.spec_groups();
        lemma_scan_distance(groups, tokens, position, 1, seq![0u8]);
        let next = match open_group(groups, rule, 0) {
            Some(id) => {
                lemma_scan_distance(groups, tokens, position, 1, seq![id as u8]);
                skip_group(groups, tokens, position, id as u8)
            },
            None => position,
        };
        if next < tokens.len() {
            law_recover_outcome(recovery, tokens, next + 1, until);
        }
    }
}

/// Without groups and halting tokens, the recovery skips exactly the tokens
/// before the first token of `until`, or every token when there is none.
pub proof fn law_unlimited_recovery(recovery: Recovery, tokens: Seq<TokenRule>, position: int, until: Set<TokenRule>)
    requires
        recovery.wf(),
        recovery.spec_groups().len() == 0,
        recovery.spec_unexpected() == Set::<TokenRule>::empty(),
        0 <= position <= tokens.len(),
    ensures
        ({
            let (kind, stop) = recovery.recover_from(tokens, position, until);
            &&& forall|k: int| position <= k < stop ==> !until.contains(#[trigger] tokens[k])
            &&& kind == RecoveryResult::PanicRecover ==> until.contains(token_at(tokens, stop))
            &&& kind != RecoveryResult::PanicRecover ==> kind == RecoveryResult::UnexpectedEOI
                && stop == tokens.len()
            &&& kind != RecoveryResult::UnexpectedToken
            &&& (forall|k: int| position <= k <= tokens.len() ==> !until.contains(#[trigger] token_at(tokens, k)))
                ==> kind == RecoveryResult::UnexpectedEOI && stop == tokens.len()
        }),
    decreases tokens.len() + 1 - position,
{
    law_recover_outcome(recovery, tokens, position, until);
    let rule = token_at(tokens, position);
    if !until.contains(rule) {
        let groups = recovery.spec_groups();
        assert(open_group(groups, rule, 0) is None);
        if position < tokens.len() {
            law_unlimited_recovery(recovery, tokens, position + 1, until);
        }
    }
}

/// The stack of open groups after reading the tokens from `position` up to
/// `end` (excluded), starting from no open group: an open bound pushes its
/// group, a close bound pops its own group from the top, and any other
/// token leaves the stack as it is. `None` once a close bound meets an
/// empty stack or the top of another group.
pub open spec fn nesting(groups: Seq<(TokenRule, TokenRule)>, tokens: Seq<TokenRule>, position: int, end: int) -> Option<Seq<u8>>
    decreases end - position,
{
    if end <= position {
        Some(Seq::<u8>::empty())
    } else {
        match nesting(groups, tokens, position, end - 1) {
            None => None,
            Some(open) => match match_group(groups, token_at(tokens, end - 1), 0) {
                None => Some(open),
                Some((g, true)) => Some(open.push(g as u8)),
                Some((g, false)) => if open.len() > 0 && open.last() == g as u8 {
                    Some(open.drop_last())
                } else {
                    None
                },
            },
        }
    }
}

/// True when the token at `k`, after the open bound at `position`, lies
/// inside the group: it is not [EOI] and the groups read up to it are
/// properly nested with at least one still open.
pub open spec fn inside_group(groups: Seq<(TokenRule, TokenRule)>, tokens: Seq<TokenRule>, position: int, k: int) -> bool {
    &&& token_at(tokens, k) != EOI
    &&& nesting(groups, tokens, position, k) matches Some(open) && open.len() > 0
}

/// True when the token at `close` closes the group that the token at
/// `position` opens: the tokens from `position` to `close` (included) are
/// properly nested groups, none of them [EOI], and the nesting depth
/// returns to zero at `close` and nowhere before.
pub open spec fn closes_at(groups: Seq<(TokenRule, TokenRule)>, tokens: Seq<TokenRule>, position: int, close: int) -> bool {
    &&& 0 <= position < close < tokens.len()
    &&& nesting(groups, tokens, position, close + 1) == Some(Seq::<u8>::empty())
    &&& forall|k: int| position < k <= close ==> #[trigger] inside_group(groups, tokens, position, k)
}

/// A group cannot close before the tokens known to lie inside it.
proof fn lemma_close_not_before(
    groups: Seq<(TokenRule, TokenRule)>,
    tokens: Seq<TokenRule>,
    position: int,
    at: int,
    close: int,
)
    requires
        position < at,
        nesting(groups, tokens, position, at) matches Some(open) && open.len() > 0,
        forall|k: int| position < k < at ==> #[trigger] inside_group(groups, tokens, position, k),
        closes_at(groups, tokens, position, close),
    ensures
        close >= at,
        inside_group(groups, tokens, position, at),
        close > at ==> inside_group(groups, tokens, position, at + 1),
{
    if close < at {
        if close + 1 < at {
            assert(inside_group(groups, tokens, position, close + 1));
        }
    }
    assert(position < at <= close);
    if close > at {
        assert(position < at + 1 <= close);
    }
}

/// A scan that starts inside a group with the stack of open groups that the
/// tokens read so far leave stops with an empty stack exactly at the token
/// that closes the group.
#[verifier::rlimit(40)]
proof fn lemma_scan_nesting(
    groups: Seq<(TokenRule, TokenRule)>,
    tokens: Seq<TokenRule>,
    position: int,
    distance: int,
    stack: Seq<u8>,
)
    requires
        0 <= position,
        1 <= distance,
        position + distance <= tokens.len(),
        stack.len() > 0,
        nesting(groups, tokens, position, position + distance) == Some(stack),
        forall|k: int| position < k < position + distance ==> #[trigger] inside_group(groups, tokens, position, k),
    ensures
        ({
            let (stop, left) = scan_group(groups, tokens, position, distance, stack);
            left.len() == 0 ==> closes_at(groups, tokens, position, position + stop)
        }),
        forall|close: int| #[trigger] closes_at(groups, tokens, position, close)
            ==> scan_group(groups, tokens, position, distance, stack) == (close - position, Seq::<u8>::empty()),
    decreases tokens.len() + 1 - (position + distance),
{
    let at = position + distance;
    let rule = token_at(tokens, at);
    assert forall|close: int| #[trigger] closes_at(groups, tokens, position, close) implies {
        &&& close >= at
        &&& inside_group(groups, tokens, position, at)
        &&& close > at ==> inside_group(groups, tokens, position, at + 1)
    } by {
        lemma_close_not_before(groups, tokens, position, at, close);
    }
    if at >= tokens.len() || rule == EOI {
    } else {
        let next = nesting(groups, tokens, position, at + 1);
        if stack.len() > 0 && !inside_group(groups, tokens, position, at) {
            assert(false);
        }
        assert(forall|k: int| position < k < at + 1 ==> #[trigger] inside_group(groups, tokens, position, k));
        match match_group(groups, rule, 0) {
            None => {
                assert(next == Some(stack));
                lemma_scan_nesting(groups, tokens, position, distance + 1, stack);
            },
            Some((id, true)) => {
                assert(next == Some(stack.push(id as u8)));
                lemma_scan_nesting(groups, tokens, position, distance + 1, stack.push(id as u8));
            },
            Some((id, false)) => {
                if stack.last() != id as u8 {
                    assert(next is None);
                } else if stack.len() == 1 {
                    assert(stack.drop_last() =~= Seq::<u8>::empty());
                    assert(next == Some(Seq::<u8>::empty()));
                    assert(closes_at(groups, tokens, position, at));
                } else {
                    assert(next == Some(stack.drop_last()));
                    lemma_scan_nesting(groups, tokens, position, distance + 1, stack.drop_last());
                }
            },
        }
    }
}

/// With well-formed groups, the open bound of a group is matched as the
/// open bound of that group.
proof fn lemma_match_open_bound(recovery: Recovery, g: int, from: int)
    requires
        recovery.wf(),
        0 <= from <= g < recovery.spec_groups().len(),
    ensures
        match_group(recovery.spec_groups(), recovery.spec_groups()[g].0, from) == Some((g, true)),
        open_group(recovery.spec_groups(), recovery.spec_groups()[g].0, from) == Some(g),
    decreases g - from,
{
    let groups = recovery.spec_groups();
    if from < g {
        assert(groups[from] == recovery.groups@[from]);
        assert(groups[g] == recovery.groups@[g]);
        lemma_match_open_bound(recovery, g, from + 1);
    }
}

/// A balanced group is skipped up to its own close bound: when the token at
/// `position` opens group `g` and the token at `close` closes it, with the
/// groups between properly nested, the skip lands on `close`.
pub proof fn law_skip_balanced_group(recovery: Recovery, tokens: Seq<TokenRule>, position: int, g: int, close: int)
    requires
        recovery.wf(),
        0 <= g < recovery.spec_groups().len(),
        0 <= position < tokens.len(),
        tokens[position] == recovery.spec_groups()[g].0,
        closes_at(recovery.spec_groups(), tokens, position, close),
    ensures
        skip_group(recovery.spec_groups(), tokens, position, g as u8) == close,
{
    lemma_skip_nesting(recovery, tokens, position, g);
}

/// An unclosed group is not skipped: when no token closes the group that
/// the token at `position` opens (the nesting never returns to zero before
/// the end of input, or a close bound of another group breaks it), the skip
/// stays at `position`.
pub proof fn law_skip_unclosed_group(recovery: Recovery, tokens: Seq<TokenRule>, position: int, g: int)
    requires
        recovery.wf(),
        0 <= g < recovery.spec_groups().len(),
        0 <= position < tokens.len(),
        tokens[position] == recovery.spec_groups()[g].0,
        forall|close: int| !closes_at(recovery.spec_groups(), tokens, position, close),
    ensures
        skip_group(recovery.spec_groups(), tokens, position, g as u8) == position,
{
    lemma_skip_nesting(recovery, tokens, position, g);
}

/// The skip from an open bound lands on the close bound of its group when
/// there is one, and stays at the open bound otherwise.
proof fn lemma_skip_nesting(recovery: Recovery, tokens: Seq<TokenRule>, position: int, g: int)
    requires
        recovery.wf(),
        0 <= g < recovery.spec_groups().len(),
        0 <= position < tokens.len(),
        tokens[position] == recovery.spec_groups()[g].0,
    ensures
        forall|close: int| #[trigger] closes_at(recovery.spec_groups(), tokens, position, close)
            ==> skip_group(recovery.spec_groups(), tokens, position, g as u8) == close,
        (forall|close: int| !closes_at(recovery.spec_groups(), tokens, position, close))
            ==> skip_group(recovery.spec_groups(), tokens, position, g as u8) == position,
{
    let groups = recovery.spec_groups();
    lemma_match_open_bound(recovery, g, 0);
    assert(token_at(tokens, position) == groups[g].0);
    assert(nesting(groups, tokens, position, position) == Some(Seq::<u8>::empty()));
    assert(Seq::<u8>::empty().push(g as u8) =~= seq![g as u8]);
    assert(nesting(groups, tokens, position, position + 1) == Some(seq![g as u8]));
    lemma_scan_nesting(groups, tokens, position, 1, seq![g as u8]);
    let (stop, left) = scan_group(groups, tokens, position, 1, seq![g as u8]);
    if left.len() == 0 {
        assert(closes_at(groups, tokens, position, position + stop));
    }
}

/// Halting tokens inside a balanced group never stop the recovery: when the
/// token at `position` opens a group that the token at `close` closes, the
/// recovery goes on after `close` as if the group were not there.
pub proof fn law_recover_skips_balanced_group(
    recovery: Recovery,
    tokens: Seq<TokenRule>,
    position: int,
    until: Set<TokenRule>,
    g: int,
    close: int,
)
    requires
        recovery.wf(),
        0 <= g < recovery.spec_groups().len(),
        0 <= position < tokens.len(),
        tokens[position] == recovery.spec_groups()[g].0,
        !until.contains(tokens[position]),
        !recovery.spec_unexpected().contains(tokens[position]),
        closes_at(recovery.spec_groups(), tokens, position, close),
    ensures
        recovery.recover_from(tokens, position, until) == recovery.recover_from(tokens, close + 1, until),
{
    lemma_match_open_bound(recovery, g, 0);
    law_skip_balanced_group(recovery, tokens, position, g, close);
    assert(token_at(tokens, position) == tokens[position]);
}

/// An unclosed group is read token by token: when no token closes the group
/// that the token at `position` opens, the recovery goes on right after the
/// open bound, so a halting token inside the group still stops it.
pub proof fn law_recover_enters_unclosed_group(
    recovery: Recovery,
    tokens: Seq<TokenRule>,
    position: int,
    until: Set<TokenRule>,
    g: int,
)
    requires
        recovery.wf(),
        0 <= g < recovery.spec_groups().len(),
        0 <= position < tokens.len(),
        tokens[position] == recovery.spec_groups()[g].0,
        !until.contains(tokens[position]),
        !recovery.spec_unexpected().contains(tokens[position]),
        forall|close: int| !closes_at(recovery.spec_groups(), tokens, position, close),
    ensures
        recovery.recover_from(tokens, position, until) == recovery.recover_from(tokens, position + 1, until),
{
    lemma_match_open_bound(recovery, g, 0);
    law_skip_unclosed_group(recovery, tokens, position, g);
    assert(token_at(tokens, position) == tokens[position]);
}

/// A halting token that the recovery meets first stops it on the spot: when
/// the token at the start is a halting token outside `until`, the recovery
/// reports [RecoveryResult::UnexpectedToken] without consuming it.
pub proof fn law_halting_token_stops(recovery: Recovery, tokens: Seq<TokenRule>, position: int, until: Set<TokenRule>)
    requires
        recovery.wf(),
        0 <= position <= tokens.len(),
        recovery.spec_unexpected().contains(token_at(tokens, position)),
        !until.contains(token_at(tokens, position)),
    ensures
        recovery.recover_from(tokens, position, until) == (RecoveryResult::UnexpectedToken, position),
{
}

} // verus!
