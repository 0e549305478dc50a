//! Task identifiers and fixed-width sets of them.

use crate::err::{Error, ErrorView, Result};
use crate::text::{decimal, decimal_string};
use vstd::prelude::*;
use vstd::string::StringExecFns;

verus! {

/// Identifier of a task: a number between 0 and 255, which bounds the number of
/// tasks a pipeline can hold.
#[derive(Clone, Copy, Debug, Hash, PartialEq, Eq, PartialOrd, Ord, Structural)]
pub struct TaskId(u8);

impl View for TaskId {
    type V = u8;

    closed spec fn view(&self) -> u8 {
        self.0
    }
}

impl TaskId {
    /// Two identifiers are the same exactly when they stand for the same number.
    pub broadcast proof fn lemma_view_injective(a: TaskId, b: TaskId)
        ensures
            (#[trigger] a@ == #[trigger] b@) <==> a == b,
    {
    }

    /// Returns the current identifier and moves on to the next one; fails, and
    /// stays where it is, once 255 is reached.
    pub fn fetch_incr(&mut self) -> (r: Result<Self>)
        ensures
            old(self)@ < 255 ==> r == Ok::<TaskId, Error>(*old(self)) && final(self)@ == old(self)@ + 1,
            old(self)@ == 255 ==> r is Err && r->Err_0@ == ErrorView::TooManyTasks(256)
                && *final(self) == *old(self),
    {
        if self.0 < 255 {
            let current = *self;
            self.0 = self.0 + 1;
            Ok(current)
        } else {
            Err(Error::TooManyTasks(self.0 as usize + 1))
        }
    }

    /// The identifier as a decimal number.
    pub fn to_string(&self) -> (s: String)
        ensures
            s@ == decimal(self@ as nat),
    {
        decimal_string(self.0 as u64)
    }

    /// First possible id, 0.
    pub fn first() -> (id: Self)
        ensures
            id@ == 0,
    {
        TaskId(0)
    }
}

impl vstd::std_specs::convert::TryFromSpecImpl<usize> for TaskId {
    open spec fn obeys_try_from_spec() -> bool {
        true
    }

    closed spec fn try_from_spec(value: usize) -> Result<Self> {
        if value <= 255 {
            Ok(TaskId(value as u8))
        } else {
            Err(Error::TooManyTasks(value))
        }
    }
}

impl TryFrom<usize> for TaskId {
    type Error = Error;

    /// The identifier that stands for `value`, where there is one.
    fn try_from(value: usize) -> (r: Result<Self>)
        ensures
            value <= 255 ==> r is Ok && r->Ok_0@ == value,
            value > 255 ==> r is Err && r->Err_0@ == ErrorView::TooManyTasks(value),
    {
        if value <= 255 {
            Ok(TaskId(value as u8))
        } else {
            Err(Error::TooManyTasks(value))
        }
    }
}

/// Whether bit `i` of a 128-bit lane is set.
spec fn bit(lane: u128, i: u8) -> bool {
    (lane >> (i as u128)) & 1 == 1
}

proof fn lemma_bit_or(a: u128, b: u128, i: u8)
    by (bit_vector)
    requires
        i < 128,
    ensures
        bit(a | b, i) == (bit(a, i) || bit(b, i)),
{
}

proof fn lemma_bit_and(a: u128, b: u128, i: u8)
    by (bit_vector)
    requires
        i < 128,
    ensures
        bit(a & b, i) == (bit(a, i) && bit(b, i)),
{
}

proof fn lemma_bit_not(a: u128, i: u8)
    by (bit_vector)
    requires
        i < 128,
    ensures
        bit(!a, i) == !bit(a, i),
{
}

proof fn lemma_bit_zero(i: u8)
    by (bit_vector)
    requires
        i < 128,
    ensures
        !bit(0u128, i),
{
}

proof fn lemma_bit_single(k: u8, i: u8)
    by (bit_vector)
    requires
        i < 128,
        k < 128,
    ensures
        bit(1u128 << (k as u128), i) == (i == k),
{
}

/// Two lanes that differ, differ in some bit below `hi`, provided they agree
/// from `hi` upwards.
proof fn lemma_differing_bit(a: u128, b: u128, hi: u8) -> (i: u8)
    requires
        a != b,
        hi <= 128,
        hi < 128 ==> (a >> (hi as u128)) == (b >> (hi as u128)),
    ensures
        i < hi,
        bit(a, i) != bit(b, i),
    decreases hi,
{
    assert(hi != 0) by (bit_vector)
        requires
            a != b,
            hi < 128 ==> (a >> (hi as u128)) == (b >> (hi as u128)),
    ;
    let top = (hi - 1) as u8;
    if bit(a, top) != bit(b, top) {
        top
    } else {
        assert((a >> (top as u128)) == (b >> (top as u128))) by (bit_vector)
            requires
                top < 128,
                top < 127 ==> (a >> ((top + 1) as u128)) == (b >> ((top + 1) as u128)),
                ((a >> (top as u128)) & 1 == 1) == ((b >> (top as u128)) & 1 == 1),
        ;
        lemma_differing_bit(a, b, top)
    }
}

/// A set of task identifiers, kept as one bit per identifier in two 128-bit
/// lanes: the first for 128 to 255, the second for 0 to 127.
#[derive(Clone, Copy, Debug, PartialEq, Eq, Structural)]
pub struct TaskIds(u128, u128);

impl View for TaskIds {
    type V = Set<u8>;

    closed spec fn view(&self) -> Set<u8> {
        Set::new(|i: u8| self.has_bit(i))
    }
}

/// The members of `s` below `bound`, in ascending order.
pub open spec fn members_below(s: Set<u8>, bound: nat) -> Seq<u8>
    decreases bound,
{
    if bound == 0 {
        Seq::empty()
    } else {
        let rest = members_below(s, (bound - 1) as nat);
        if s.contains((bound - 1) as u8) {
            rest.push((bound - 1) as u8)
        } else {
            rest
        }
    }
}

/// `members_below` lists exactly the members below the bound, smallest first
/// and each once.
pub proof fn lemma_members_below(s: Set<u8>, bound: nat)
    requires
        bound <= 256,
    ensures
        forall|i: u8| #[trigger]
            members_below(s, bound).contains(i) <==> (i < bound && s.contains(i)),
        forall|j: int, k: int|
            0 <= j < k < members_below(s, bound).len() ==> members_below(s, bound)[j]
                < members_below(s, bound)[k],
    decreases bound,
{
    let all = members_below(s, bound);
    if bound > 0 {
        let rest = members_below(s, (bound - 1) as nat);
        let top = (bound - 1) as u8;
        lemma_members_below(s, (bound - 1) as nat);
        assert(all == if s.contains(top) { rest.push(top) } else { rest });
        assert forall|j: int| 0 <= j < rest.len() implies rest[j] < top by {
            assert(rest.contains(rest[j]));
        }
        assert forall|i: u8| all.contains(i) implies i < bound && s.contains(i) by {
            let j = choose|j: int| 0 <= j < all.len() && all[j] == i;
            if j < rest.len() {
                assert(rest[j] == i);
                assert(rest.contains(i));
            } else {
                assert(i == top);
            }
        }
        assert forall|i: u8| i < bound && s.contains(i) implies all.contains(i) by {
            if i == top {
                assert(all[rest.len() as int] == i);
            } else {
                assert(rest.contains(i));
                let j = choose|j: int| 0 <= j < rest.len() && rest[j] == i;
                assert(all[j] == i);
            }
        }
        assert forall|j: int, k: int| 0 <= j < k < all.len() implies all[j] < all[k] by {
            if k == rest.len() {
                assert(rest[j] == all[j]);
            } else {
                assert(rest[j] == all[j] && rest[k] == all[k]);
            }
        }
    } else {
        assert(all.len() == 0);
    }
}

/// A set has at most as many members below a bound as there are numbers
/// below it.
pub proof fn lemma_members_below_len(s: Set<u8>, bound: nat)
    ensures
        members_below(s, bound).len() <= bound,
    decreases bound,
{
    if bound > 0 {
        lemma_members_below_len(s, (bound - 1) as nat);
    }
}

/// A new member below the bound is one more member below it.
pub proof fn lemma_members_below_insert(s: Set<u8>, x: u8, bound: nat)
    requires
        !s.contains(x),
        bound <= 256,
    ensures
        members_below(s.insert(x), bound).len() == members_below(s, bound).len() + (if x < bound {
            1nat
        } else {
            0nat
        }),
    decreases bound,
{
    if bound > 0 {
        lemma_members_below_insert(s, x, (bound - 1) as nat);
    }
}

/// Numbers in decimal with a comma between each two.
pub open spec fn joined(ids: Seq<u8>) -> Seq<char>
    decreases ids.len(),
{
    if ids.len() == 0 {
        Seq::empty()
    } else if ids.len() == 1 {
        decimal(ids[0] as nat)
    } else {
        joined(ids.drop_last()) + ","@ + decimal(ids.last() as nat)
    }
}

/// The members of a set from 0 to 254 between square brackets, with a comma
/// between each two.
pub open spec fn set_text(s: Set<u8>) -> Seq<char> {
    "["@ + joined(members_below(s, 255)) + "]"@
}

/// The numbers that a sequence of identifiers stands for.
pub open spec fn values_of(ids: Seq<TaskId>) -> Seq<u8> {
    ids.map_values(|id: TaskId| id@)
}

impl TaskIds {
    spec fn has_bit(self, i: u8) -> bool {
        if i < 128 {
            bit(self.1, i)
        } else {
            bit(self.0, (i - 128) as u8)
        }
    }

    /// The set that `From` makes of one identifier.
    pub closed spec fn singleton(id: TaskId) -> Self {
        if id.0 > 0x7F {
            TaskIds(1u128 << ((id.0 & 0x7F) as u128), 0)
        } else {
            TaskIds(0, 1u128 << ((id.0 & 0x7F) as u128))
        }
    }

    /// The set that `&` gives.
    pub closed spec fn intersect(self, rhs: Self) -> Self {
        TaskIds(self.0 & rhs.0, self.1 & rhs.1)
    }

    /// The set that `|` gives.
    pub closed spec fn union(self, rhs: Self) -> Self {
        TaskIds(self.0 | rhs.0, self.1 | rhs.1)
    }

    /// The set that `!` gives.
    pub closed spec fn complement(self) -> Self {
        TaskIds(!self.0, !self.1)
    }

    /// What iteration yields: the members from 0 to 254, in ascending order.
    /// The identifier 255 can be a member but is never listed.
    pub open spec fn listed(self) -> Seq<u8> {
        members_below(self@, 255)
    }

    /// A set is what its members are: two sets with the same members are equal.
    pub proof fn lemma_extensional(a: TaskIds, b: TaskIds)
        requires
            a@ == b@,
        ensures
            a == b,
    {
        if a.1 != b.1 {
            let i = lemma_differing_bit(a.1, b.1, 128);
            assert(a@.contains(i) == a.has_bit(i));
            assert(b@.contains(i) == b.has_bit(i));
        }
        if a.0 != b.0 {
            let i = lemma_differing_bit(a.0, b.0, 128);
            let j = (i + 128) as u8;
            assert(a@.contains(j) == a.has_bit(j));
            assert(b@.contains(j) == b.has_bit(j));
        }
    }

    /// The set made from one identifier has that identifier as its only member.
    pub proof fn lemma_from_view(id: TaskId)
        ensures
            TaskIds::singleton(id)@ == set![id@],
    {
        let r = TaskIds::singleton(id);
        let raw: u8 = id.0;
        let size: u8 = raw & 0x7F;
        assert(size < 128 && (raw > 0x7F ==> size == raw - 128) && (raw <= 0x7F ==> size == raw))
            by (bit_vector)
            requires
                size == raw & 0x7F,
        ;
        assert forall|i: u8| r.has_bit(i) == (i == raw) by {
            let low = if i < 128 { i } else { (i - 128) as u8 };
            lemma_bit_zero(low);
            lemma_bit_single(size, low);
        }
        assert(r@ =~= set![id@]);
    }

    /// `&` is intersection.
    pub proof fn lemma_bitand_view(a: TaskIds, b: TaskIds)
        ensures
            a.intersect(b)@ == a@.intersect(b@),
    {
        let r = a.intersect(b);
        assert forall|i: u8| r.has_bit(i) == (a.has_bit(i) && b.has_bit(i)) by {
            let low = if i < 128 { i } else { (i - 128) as u8 };
            lemma_bit_and(a.0, b.0, low);
            lemma_bit_and(a.1, b.1, low);
        }
        assert(r@ =~= a@.intersect(b@));
    }

    /// `|` is union.
    pub proof fn lemma_bitor_view(a: TaskIds, b: TaskIds)
        ensures
            a.union(b)@ == a@.union(b@),
    {
        let r = a.union(b);
        assert forall|i: u8| r.has_bit(i) == (a.has_bit(i) || b.has_bit(i)) by {
            let low = if i < 128 { i } else { (i - 128) as u8 };
            lemma_bit_or(a.0, b.0, low);
            lemma_bit_or(a.1, b.1, low);
        }
        assert(r@ =~= a@.union(b@));
    }

    /// `!` is the complement within 0 to 255.
    pub proof fn lemma_not_view(a: TaskIds)
        ensures
            a.complement()@ == a@.complement(),
    {
        let r = a.complement();
        assert forall|i: u8| r.has_bit(i) == !a.has_bit(i) by {
            let low = if i < 128 { i } else { (i - 128) as u8 };
            lemma_bit_not(a.0, low);
            lemma_bit_not(a.1, low);
        }
        assert(r@ =~= a@.complement());
    }

    /// Adding the empty set changes nothing.
    pub proof fn lemma_or_empty(s: TaskIds, none: TaskIds)
        requires
            none@ == Set::<u8>::empty(),
        ensures
            s.union(none) == s,
    {
        Self::lemma_bitor_view(s, none);
        assert(s@.union(none@) =~= s@);
        Self::lemma_extensional(s.union(none), s);
    }

    /// A set and its complement have no member in common.
    pub proof fn lemma_and_complement(s: TaskIds)
        ensures
            s.intersect(s.complement())@ == Set::<u8>::empty(),
    {
        Self::lemma_not_view(s);
        Self::lemma_bitand_view(s, s.complement());
        assert(s@.intersect(s@.complement()) =~= Set::<u8>::empty());
    }

    /// `(a | b) & !b` holds the members of `a` that are not in `b`.
    pub proof fn lemma_or_and_not(a: TaskIds, b: TaskIds)
        ensures
            a.union(b).intersect(b.complement())@ == a@.difference(b@),
    {
        Self::lemma_bitor_view(a, b);
        Self::lemma_not_view(b);
        Self::lemma_bitand_view(a.union(b), b.complement());
        assert(a@.union(b@).intersect(b@.complement()) =~= a@.difference(b@));
    }

    /// Iterating over the set made from one identifier below 255 yields that
    /// identifier and nothing else.
    pub proof fn lemma_from_listed(id: TaskId)
        requires
            id@ < 255,
        ensures
            TaskIds::singleton(id).listed() == seq![id@],
    {
        let s = TaskIds::singleton(id);
        Self::lemma_from_view(id);
        lemma_members_below(s@, 255);
        let l = s.listed();
        assert(s@.contains(id@));
        assert(l.contains(id@));
        assert forall|j: int| 0 <= j < l.len() implies l[j] == id@ by {
            assert(l.contains(l[j]));
            assert(s@.contains(l[j]));
        }
        if l.len() > 1 {
            assert(l[0] < l[1]);
        }
        assert(l.len() == 1);
        assert(l =~= seq![id@]);
    }

    /// Collecting what iteration yields gives the set back, unless 255 is a
    /// member, which iteration leaves out.
    pub proof fn lemma_collect_listed(s: TaskIds, collected: TaskIds)
        requires
            !s@.contains(255),
            collected@ == s.listed().to_set(),
        ensures
            collected == s,
    {
        lemma_members_below(s@, 255);
        assert(collected@ =~= s@);
        Self::lemma_extensional(collected, s);
    }

    /// Whether the set has no member.
    pub fn is_empty(&self) -> (r: bool)
        ensures
            r <==> self@ == Set::<u8>::empty(),
    {
        proof {
            let none = TaskIds(0, 0);
            assert forall|i: u8| !none.has_bit(i) by {
                if i < 128 {
                    lemma_bit_zero(i);
                } else {
                    lemma_bit_zero((i - 128) as u8);
                }
            }
            assert(none@ =~= Set::<u8>::empty());
            if self@ == Set::<u8>::empty() {
                Self::lemma_extensional(*self, none);
            }
        }
        self.1 == 0 && self.0 == 0
    }

    /// Whether `id` is a member.
    pub fn contains(&self, id: TaskId) -> (r: bool)
        ensures
            r == self@.contains(id@),
    {
        let common = *self & TaskIds::from(id);
        proof {
            if self@.contains(id@) {
                assert(common@.contains(id@));
            } else {
                assert(common@ =~= Set::<u8>::empty());
            }
        }
        !common.is_empty()
    }

    /// The members from 0 to 254 in ascending order.
    pub fn ids(self) -> (r: Vec<TaskId>)
        ensures
            values_of(r@) == self.listed(),
    {
        let mut found: Vec<TaskId> = Vec::new();
        let mut i: u8 = 0;
        while i < 255
            invariant
                i <= 255,
                values_of(found@) == members_below(self@, i as nat),
            decreases 255 - i,
        {
            let id = TaskId(i);
            if self.contains(id) {
                found.push(id);
                assert(values_of(found@) =~= members_below(self@, i as nat).push(i));
            }
            i = i + 1;
        }
        found
    }

    /// The listed members between square brackets, with a comma between each
    /// two.
    pub open spec fn text(self) -> Seq<char> {
        set_text(self@)
    }

    /// The listed members between square brackets, with a comma between each
    /// two.
    pub fn to_string(&self) -> (s: String)
        ensures
            s@ == self.text(),
    {
        let ids = self.ids();
        let mut s = String::from_str("[");
        let mut k: usize = 0;
        assert(values_of(ids@).take(0) =~= Seq::<u8>::empty());
        while k < ids.len()
            invariant
                k <= ids.len(),
                values_of(ids@) == self.listed(),
                s@ == "["@ + joined(values_of(ids@).take(k as int)),
            decreases ids.len() - k,
        {
            let ghost before = values_of(ids@).take(k as int);
            let ghost now = values_of(ids@).take(k + 1);
            proof {
                assert(now.drop_last() =~= before);
                assert(now.last() == ids@[k as int]@);
                assert(values_of(ids@).len() == ids@.len());
            }
            if k > 0 {
                s.append(",");
            }
            let number = ids[k].to_string();
            s.append(number.as_str());
            assert(s@ =~= "["@ + joined(now));
            k = k + 1;
        }
        assert(values_of(ids@).take(ids@.len() as int) =~= values_of(ids@));
        s.append("]");
        s
    }

    /// The set whose members are the given identifiers.
    pub fn from_ids(ids: &[TaskId]) -> (r: Self)
        ensures
            r@ == values_of(ids@).to_set(),
    {
        let mut all = TaskIds::default();
        let mut k: usize = 0;
        while k < ids.len()
            invariant
                k <= ids.len(),
                all@ == values_of(ids@.subrange(0, k as int)).to_set(),
            decreases ids.len() - k,
        {
            let one = TaskIds::from(ids[k]);
            all = all | one;
            proof {
                let before = values_of(ids@.subrange(0, k as int));
                let after = values_of(ids@.subrange(0, k + 1));
                assert(after =~= before.push(ids@[k as int]@));
                assert(after.to_set() =~= before.to_set().insert(ids@[k as int]@)) by {
                    assert forall|x: u8| after.to_set().contains(x) <==> before.to_set().insert(
                        ids@[k as int]@,
                    ).contains(x) by {
                        if after.contains(x) {
                            let j = choose|j: int| 0 <= j < after.len() && after[j] == x;
                            if j < before.len() {
                                assert(before[j] == x);
                            }
                        }
                        if before.contains(x) {
                            let j = choose|j: int| 0 <= j < before.len() && before[j] == x;
                            assert(after[j] == x);
                        }
                        assert(after[before.len() as int] == ids@[k as int]@);
                    }
                }
            }
            k = k + 1;
        }
        assert(ids@.subrange(0, ids@.len() as int) =~= ids@);
        all
    }
}

impl Default for TaskIds {
    /// The empty set.
    fn default() -> (r: Self)
        ensures
            r@ == Set::<u8>::empty(),
    {
        let r = TaskIds(0, 0);
        proof {
            assert forall|i: u8| !r.has_bit(i) by {
                if i < 128 {
                    lemma_bit_zero(i);
                } else {
                    lemma_bit_zero((i - 128) as u8);
                }
            }
            assert(r@ =~= Set::<u8>::empty());
        }
        r
    }
}

impl vstd::std_specs::convert::FromSpecImpl<TaskId> for TaskIds {
    open spec fn obeys_from_spec() -> bool {
        true
    }

    open spec fn from_spec(id: TaskId) -> Self {
        TaskIds::singleton(id)
    }
}

impl From<TaskId> for TaskIds {
    /// The set with `id` as its only member.
    fn from(id: TaskId) -> (r: Self)
        ensures
            r@ == set![id@],
    {
        let raw: u8 = id.0;
        let size: u8 = raw & 0x7F;
        assert(size < 128 && (raw > 0x7F ==> size == raw - 128) && (raw <= 0x7F ==> size == raw))
            by (bit_vector)
            requires
                size == raw & 0x7F,
        ;
        proof {
            Self::lemma_from_view(id);
        }
        if raw > 0x7F {
            TaskIds(1u128 << size, 0)
        } else {
            TaskIds(0, 1u128 << size)
        }
    }
}

impl vstd::std_specs::ops::BitAndSpecImpl for TaskIds {
    open spec fn obeys_bitand_spec() -> bool {
        true
    }

    open spec fn bitand_req(self, rhs: Self) -> bool {
        true
    }

    open spec fn bitand_spec(self, rhs: Self) -> Self {
        self.intersect(rhs)
    }
}

impl std::ops::BitAnd for TaskIds {
    type Output = Self;

    /// The identifiers that are members of both.
    fn bitand(self, rhs: Self) -> (r: Self)
        ensures
            r@ == self@.intersect(rhs@),
    {
        proof {
            Self::lemma_bitand_view(self, rhs);
        }
        TaskIds(self.0 & rhs.0, self.1 & rhs.1)
    }
}

impl std::ops::BitAndAssign for TaskIds {
    /// Keeps the identifiers that are members of both.
    fn bitand_assign(&mut self, rhs: Self)
        ensures
            final(self)@ == old(self)@.intersect(rhs@),
    {
        let both = *self & rhs;
        *self = both;
    }
}

impl vstd::std_specs::ops::BitOrSpecImpl for TaskIds {
    open spec fn obeys_bitor_spec() -> bool {
        true
    }

    open spec fn bitor_req(self, rhs: Self) -> bool {
        true
    }

    open spec fn bitor_spec(self, rhs: Self) -> Self {
        self.union(rhs)
    }
}

impl std::ops::BitOr for TaskIds {
    type Output = Self;

    /// The identifiers that are members of either.
    fn bitor(self, rhs: Self) -> (r: Self)
        ensures
            r@ == self@.union(rhs@),
    {
        proof {
            Self::lemma_bitor_view(self, rhs);
        }
        TaskIds(self.0 | rhs.0, self.1 | rhs.1)
    }
}

impl std::ops::BitOrAssign for TaskIds {
    /// Adds the members of `rhs`.
    fn bitor_assign(&mut self, rhs: Self)
        ensures
            final(self)@ == old(self)@.union(rhs@),
    {
        let either = *self | rhs;
        *self = either;
    }
}

impl vstd::std_specs::ops::NotSpecImpl for TaskIds {
    open spec fn obeys_not_spec() -> bool {
        true
    }

    open spec fn not_req(self) -> bool {
        true
    }

    open spec fn not_spec(self) -> Self {
        self.complement()
    }
}

impl std::ops::Not for TaskIds {
    type Output = Self;

    /// The identifiers that are not members.
    fn not(self) -> (r: Self)
        ensures
            r@ == self@.complement(),
    {
        proof {
            Self::lemma_not_view(self);
        }
        TaskIds(!self.0, !self.1)
    }
}

} // verus!
