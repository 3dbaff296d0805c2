use takparse::Color;
use vstd::prelude::*;

verus! {

/// The token a single bit stands for: 1 is white, 0 is black.
pub open spec fn color_of_bit(b: u64) -> Color {
    if b == 0 {
        Color::Black
    } else {
        Color::White
    }
}

pub open spec fn bit_of_color(c: Color) -> u64 {
    match c {
        Color::White => 1,
        Color::Black => 0,
    }
}

/// The token that bit value `n` stands for.
pub fn to_color(n: u64) -> (r: Color)
    ensures
        r == color_of_bit(n),
{
    if n == 0 {
        Color::Black
    } else {
        Color::White
    }
}

/// The bit value that stands for `color`.
pub fn from_color(color: Color) -> (r: u64)
    ensures
        r == bit_of_color(color),
{
    match color {
        Color::White => 1,
        Color::Black => 0,
    }
}

} // verus!

verus! {

/// Whether bit `i` of `x` is set.
pub open spec fn bit_set(x: u64, i: int) -> bool {
    (x >> (i as u64)) & 1 == 1
}

/// Number of tokens below the sentinel bit of `bits`.
pub open spec fn stack_len(bits: u64) -> int {
    63 - vstd::std_specs::bits::u64_leading_zeros(bits)
}

/// The tokens held by `bits`, from bottom to top.
pub open spec fn stack_seq(bits: u64) -> Seq<Color> {
    Seq::new(
        stack_len(bits) as nat,
        |k: int| color_of_bit((bits >> ((stack_len(bits) - 1 - k) as u64)) & 1),
    )
}

/// `bits` has its sentinel at position `len`.
proof fn lemma_sentinel(bits: u64, len: u64)
    requires
        len < 64,
        bits >> len == 1,
    ensures
        stack_len(bits) == len,
        bits != 0,
{
    vstd::std_specs::bits::axiom_u64_leading_zeros(bits);
    let lz = vstd::std_specs::bits::u64_leading_zeros(bits);
    assert(bits != 0) by (bit_vector)
        requires
            bits >> len == 1,
    ;
    let m = (63 - lz) as u64;
    let m1 = (m + 1) as u64;
    assert((bits >> m) & 1 != 0);
    assert(bits >> m1 == 0);
    assert(m == len) by (bit_vector)
        requires
            bits >> len == 1,
            (bits >> m) & 1 != 0,
            bits >> m1 == 0,
            len < 64,
            m < 64,
            m1 == m + 1,
    ;
}

/// A non-zero word has its sentinel at position `stack_len`.
proof fn lemma_len_bounds(bits: u64)
    requires
        bits != 0,
    ensures
        0 <= stack_len(bits) < 64,
        bits >> (stack_len(bits) as u64) == 1,
{
    vstd::std_specs::bits::axiom_u64_leading_zeros(bits);
    let lz = vstd::std_specs::bits::u64_leading_zeros(bits);
    let m = (63 - lz) as u64;
    let m1 = (m + 1) as u64;
    assert((bits >> m) & 1 != 0);
    assert(bits >> m1 == 0);
    assert(bits >> m == 1) by (bit_vector)
        requires
            (bits >> m) & 1 != 0,
            bits >> m1 == 0,
            m < 64,
            m1 == m + 1,
    ;
}

} // verus!

verus! {

/// Shifting right by `a` drops the top `a` tokens.
proof fn lemma_shr(bits: u64, a: u64)
    requires
        bits != 0,
        a <= stack_len(bits),
    ensures
        (bits >> a) != 0,
        stack_len(bits >> a) == stack_len(bits) - a,
        stack_seq(bits >> a) == stack_seq(bits).subrange(0, stack_len(bits) - a),
{
    lemma_len_bounds(bits);
    let len = stack_len(bits) as u64;
    let rest = (len - a) as u64;
    let shifted = bits >> a;
    assert(shifted >> rest == 1) by (bit_vector)
        requires
            bits >> len == 1,
            a <= len,
            len < 64,
            shifted == bits >> a,
            rest == len - a,
    ;
    lemma_sentinel(shifted, rest);
    assert forall|k: int| 0 <= k < rest implies #[trigger] stack_seq(shifted)[k] == stack_seq(
        bits,
    )[k] by {
        let j = (rest - 1 - k) as u64;
        let i = (len - 1 - k) as u64;
        assert((shifted >> j) & 1 == (bits >> i) & 1) by (bit_vector)
            requires
                shifted == bits >> a,
                i == a + j,
                i < 64,
        ;
    }
    assert(stack_seq(shifted) =~= stack_seq(bits).subrange(0, stack_len(bits) - a));
}

/// The same tokens, in the opposite order.
pub open spec fn reversed(s: Seq<Color>) -> Seq<Color> {
    Seq::new(s.len(), |k: int| s[s.len() - 1 - k])
}

/// The bits that `take` keeps for the removed part.
pub open spec fn low_part(bits: u64, a: u64) -> u64 {
    (1u64 << a) | (bits & !(!0u64 << a))
}

/// Keeping the low `a` bits under a fresh sentinel keeps the top `a` tokens.
proof fn lemma_low(bits: u64, a: u64)
    requires
        bits != 0,
        a <= stack_len(bits),
    ensures
        low_part(bits, a) != 0,
        stack_len(low_part(bits, a)) == a,
        stack_seq(low_part(bits, a)) == stack_seq(bits).subrange(
            stack_len(bits) - a,
            stack_len(bits),
        ),
{
    lemma_len_bounds(bits);
    let len = stack_len(bits) as u64;
    let low = low_part(bits, a);
    assert(low >> a == 1) by (bit_vector)
        requires
            low == (1u64 << a) | (bits & !(!0u64 << a)),
            a < 64,
    ;
    lemma_sentinel(low, a);
    assert forall|k: int| 0 <= k < a implies #[trigger] stack_seq(low)[k] == stack_seq(bits)[len
        - a + k] by {
        let j = (a - 1 - k) as u64;
        assert((low >> j) & 1 == (bits >> j) & 1) by (bit_vector)
            requires
                low == (1u64 << a) | (bits & !(!0u64 << a)),
                j < a,
                a < 64,
        ;
    }
    assert(stack_seq(low) =~= stack_seq(bits).subrange(len - a, len as int));
}

/// Shifting left and filling bit 0 pushes a token.
proof fn lemma_shl(bits: u64, b: u64)
    requires
        bits != 0,
        stack_len(bits) < 63,
        b <= 1,
    ensures
        ((bits << 1u64) | b) != 0,
        stack_len((bits << 1u64) | b) == stack_len(bits) + 1,
        stack_seq((bits << 1u64) | b) == stack_seq(bits).push(color_of_bit(b)),
{
    lemma_len_bounds(bits);
    let len = stack_len(bits) as u64;
    let pushed = (bits << 1u64) | b;
    let up = (len + 1) as u64;
    assert(pushed >> up == 1) by (bit_vector)
        requires
            bits >> len == 1,
            len < 63,
            up == len + 1,
            pushed == (bits << 1u64) | b,
            b <= 1,
    ;
    lemma_sentinel(pushed, up);
    assert forall|k: int| 0 <= k < up implies #[trigger] stack_seq(pushed)[k] == stack_seq(
        bits,
    ).push(color_of_bit(b))[k] by {
        let j = (len - k) as u64;
        if k < len {
            let i = (j - 1) as u64;
            assert((pushed >> j) & 1 == (bits >> i) & 1) by (bit_vector)
                requires
                    pushed == (bits << 1u64) | b,
                    b <= 1,
                    j == i + 1,
                    j < 64,
            ;
        } else {
            assert((pushed >> 0u64) & 1 == b) by (bit_vector)
                requires
                    pushed == (bits << 1u64) | b,
                    b <= 1,
            ;
        }
    }
    assert(stack_seq(pushed) =~= stack_seq(bits).push(color_of_bit(b)));
}

/// Two words with the same tokens are the same word.
proof fn lemma_injective(x: u64, y: u64)
    requires
        x != 0,
        y != 0,
        stack_seq(x) == stack_seq(y),
    ensures
        x == y,
    decreases stack_len(x),
{
    lemma_len_bounds(x);
    lemma_len_bounds(y);
    assert(stack_seq(x).len() == stack_len(x) as nat);
    assert(stack_seq(y).len() == stack_len(y) as nat);
    assert(stack_len(x) == stack_len(y));
    if stack_len(x) == 0 {
        assert(x == 1 && y == 1) by (bit_vector)
            requires
                x >> 0u64 == 1,
                y >> 0u64 == 1,
        ;
    } else {
        lemma_shr(x, 1);
        lemma_shr(y, 1);
        assert(stack_seq(x >> 1u64) == stack_seq(y >> 1u64));
        lemma_injective(x >> 1u64, y >> 1u64);
        let last = stack_len(x) - 1;
        assert(stack_seq(x)[last] == stack_seq(y)[last]);
        assert((x >> 0u64) == x && (y >> 0u64) == y) by (bit_vector);
        assert(stack_seq(x)[last] == color_of_bit(x & 1));
        assert(stack_seq(y)[last] == color_of_bit(y & 1));
        assert(x == y) by (bit_vector)
            requires
                x >> 1u64 == y >> 1u64,
                (x & 1 == 0) == (y & 1 == 0),
        ;
    }
}

} // verus!

verus! {

/// Relies on `u64::reverse_bits`: bit `i` of the result is bit `63 - i` of `x`.
#[verifier::external_body]
fn reverse_bits(x: u64) -> (r: u64)
    ensures
        forall|i: u64| i < 64 ==> #[trigger] ((r >> i) & 1) == (x >> (63 - i) as u64) & 1,
{
    x.reverse_bits()
}

/// A stack of tokens packed into one word: a sentinel bit above one bit per
/// token, the top of the stack in bit 0.
#[derive(Clone, Copy, Debug, Hash, PartialEq, Eq, Structural, PartialOrd, Ord)]
pub struct Colors {
    bits: u64,
}

impl View for Colors {
    type V = Seq<Color>;

    /// The tokens, from bottom to top.
    closed spec fn view(&self) -> Seq<Color> {
        stack_seq(self.bits)
    }
}

impl Default for Colors {
    fn default() -> (r: Self)
        ensures
            r.wf(),
            r@ == Seq::<Color>::empty(),
    {
        proof {
            assert(1u64 >> 0u64 == 1) by (bit_vector);
            lemma_sentinel(1, 0);
        }
        Self { bits: 1 }
    }
}

impl Colors {
    /// The sentinel bit is present.
    pub closed spec fn wf(&self) -> bool {
        self.bits != 0
    }

    /// The raw word, whose order is the order of stacks.
    pub closed spec fn raw(&self) -> u64 {
        self.bits
    }

    /// Whether this stack comes before `other` in the order of raw words.
    pub fn precedes(self, other: Colors) -> (r: bool)
        ensures
            r == (self.raw() < other.raw()),
    {
        self.bits < other.bits
    }

    /// A stack of one token.
    pub fn of_one(color: Color) -> (r: Self)
        ensures
            r.wf(),
            r@ == seq![color],
    {
        let bits = 0b10 + from_color(color);
        proof {
            let b = bit_of_color(color);
            assert(1u64 >> 0u64 == 1) by (bit_vector);
            lemma_sentinel(1, 0);
            assert(((1u64 << 1u64) | b) == 2 + b) by (bit_vector)
                requires
                    b <= 1,
            ;
            lemma_shl(1, b);
            assert(stack_seq(bits) =~= seq![color]);
        }
        Self { bits }
    }

    /// Whether the stack holds no token.
    pub fn is_empty(self) -> (r: bool)
        requires
            self.wf(),
        ensures
            r == (self@.len() == 0),
    {
        proof {
            lemma_len_bounds(self.bits);
            let bits = self.bits;
            if bits == 1 {
                assert(1u64 >> 0u64 == 1) by (bit_vector);
                lemma_sentinel(1, 0);
            }
            assert(bits >> 0u64 == bits) by (bit_vector);
        }
        self.bits == 1
    }

    /// The number of tokens.
    pub fn len(self) -> (r: u32)
        requires
            self.wf(),
        ensures
            r == self@.len(),
            r < 64,
    {
        proof {
            lemma_len_bounds(self.bits);
            vstd::std_specs::bits::axiom_u64_leading_zeros(self.bits);
        }
        64 - (self.bits.leading_zeros() + 1)
    }

    /// The token on top, if any.
    pub fn top(self) -> (r: Option<Color>)
        requires
            self.wf(),
        ensures
            r == (if self@.len() == 0 {
                None
            } else {
                Some(self@.last())
            }),
    {
        if self.is_empty() {
            return None;
        }
        proof {
            let bits = self.bits;
            assert(bits >> 0u64 == bits) by (bit_vector);
        }
        Some(to_color(self.bits & 1))
    }

    /// Puts a token on top. The word holds at most 63 tokens.
    pub fn push(&mut self, color: Color)
        requires
            old(self).wf(),
            old(self)@.len() < 63,
        ensures
            final(self).wf(),
            final(self)@ == old(self)@.push(color),
    {
        let b = from_color(color);
        proof {
            lemma_shl(self.bits, b);
        }
        self.bits = (self.bits << 1) | b;
    }

    /// Removes and returns the token on top; an empty stack stays as it is.
    pub fn pop(&mut self) -> (r: Option<Color>)
        requires
            old(self).wf(),
        ensures
            final(self).wf(),
            old(self)@.len() == 0 ==> r == None::<Color> && *final(self) == *old(self),
            old(self)@.len() > 0 ==> r == Some(old(self)@.last()) && final(self)@ == old(
                self,
            )@.drop_last(),
    {
        if self.is_empty() {
            return None;
        }
        let color = to_color(self.bits & 1);
        proof {
            let bits = self.bits;
            assert(bits >> 0u64 == bits) by (bit_vector);
            lemma_shr(bits, 1);
            assert(stack_seq(bits).subrange(0, stack_len(bits) - 1) =~= stack_seq(
                bits,
            ).drop_last());
        }
        self.bits = self.bits >> 1;
        Some(color)
    }

    /// Removes the top `amount` tokens and returns them as a stack of their
    /// own, in the same order; with fewer tokens than that, returns `None`
    /// and leaves the stack as it is.
    pub fn take(&mut self, amount: u32) -> (r: Option<Self>)
        requires
            old(self).wf(),
        ensures
            final(self).wf(),
            amount > old(self)@.len() ==> r == None::<Self> && *final(self) == *old(self),
            amount <= old(self)@.len() ==> r is Some && r->0.wf() && r->0@ == old(self)@.subrange(
                old(self)@.len() - amount,
                old(self)@.len() as int,
            ) && final(self)@ == old(self)@.subrange(0, old(self)@.len() - amount),
    {
        if amount > self.len() {
            return None;
        }
        let a = amount as u64;
        let mask: u64 = !(!0u64 << a);
        let bits = (1u64 << a) | (self.bits & mask);
        proof {
            lemma_low(self.bits, a);
            lemma_shr(self.bits, a);
        }
        let taken = Self { bits };
        self.bits = self.bits >> a;
        Some(taken)
    }

    /// The same tokens, bottom and top swapped.
    pub fn reverse(self) -> (r: Self)
        requires
            self.wf(),
        ensures
            r.wf(),
            r@ == reversed(self@),
    {
        let len = self.len();
        if len == 0 {
            proof {
                assert(Seq::new(self@.len(), |k: int| self@[self@.len() - 1 - k]) =~= self@);
            }
            return self;
        }
        let l = len as u64;
        let rev = reverse_bits(self.bits);
        let s = 64 - l;
        let bits = (1u64 << l) | (rev >> s);
        proof {
            let x = self.bits;
            lemma_len_bounds(x);
            assert(bits >> l == 1) by (bit_vector)
                requires
                    bits == (1u64 << l) | (rev >> s),
                    s == 64 - l,
                    1 <= l < 64,
            ;
            lemma_sentinel(bits, l);
            assert forall|k: int| 0 <= k < l implies #[trigger] stack_seq(bits)[k] == stack_seq(
                x,
            )[l - 1 - k] by {
                let j = (l - 1 - k) as u64;
                let i = (63 - k) as u64;
                assert((bits >> j) & 1 == (rev >> i) & 1) by (bit_vector)
                    requires
                        bits == (1u64 << l) | (rev >> s),
                        s == 64 - l,
                        1 <= l < 64,
                        j < l,
                        i == j + 64 - l,
                ;
                assert((rev >> i) & 1 == (x >> ((63 - i) as u64)) & 1);
            }
            assert(stack_seq(bits) =~= Seq::new(self@.len(), |k: int| self@[self@.len() - 1 - k]));
        }
        Self { bits }
    }
}

} // verus!

verus! {

impl Colors {
    /// Consumes the stack, yielding its tokens from bottom to top.
    pub fn into_iter(self) -> (r: ColorsIter)
        requires
            self.wf(),
        ensures
            r.wf(),
            r@ == self@,
    {
        let rev = self.reverse();
        proof {
            assert(reversed(rev@) =~= self@);
        }
        ColorsIter(rev)
    }

    /// Pushes the tokens one at a time, the last one ending on top.
    pub fn from_iter(colors: &[Color]) -> (r: Self)
        requires
            colors@.len() <= 63,
        ensures
            r.wf(),
            r@ == colors@,
    {
        let mut stack = Self::default();
        let mut i: usize = 0;
        while i < colors.len()
            invariant
                i <= colors@.len() <= 63,
                stack.wf(),
                stack@ == colors@.subrange(0, i as int),
            decreases colors@.len() - i,
        {
            stack.push(colors[i]);
            i = i + 1;
            assert(stack@ =~= colors@.subrange(0, i as int));
        }
        assert(stack@ =~= colors@);
        stack
    }
}

/// The tokens of a consumed stack, handed out from bottom to top.
pub struct ColorsIter(Colors);

impl View for ColorsIter {
    type V = Seq<Color>;

    /// The tokens still to come, in the order they come.
    closed spec fn view(&self) -> Seq<Color> {
        reversed(self.0@)
    }
}

impl ColorsIter {
    pub closed spec fn wf(&self) -> bool {
        self.0.wf()
    }

    /// The next token, from the bottom of the stack up.
    pub fn next(&mut self) -> (r: Option<Color>)
        requires
            old(self).wf(),
        ensures
            final(self).wf(),
            old(self)@.len() == 0 ==> r == None::<Color> && final(self)@ == old(self)@,
            old(self)@.len() > 0 ==> r == Some(old(self)@[0]) && final(self)@ == old(
                self,
            )@.drop_first(),
    {
        let ghost before = self.0@;
        let r = self.0.pop();
        proof {
            if before.len() > 0 {
                assert(reversed(before.drop_last()) =~= reversed(before).drop_first());
            }
        }
        r
    }

    /// The number of tokens still to come, as a lower and an upper bound.
    pub fn size_hint(&self) -> (r: (usize, Option<usize>))
        requires
            self.wf(),
        ensures
            r.0 == self@.len(),
            r.1 == Some(self@.len() as usize),
    {
        let len = self.0.len() as usize;
        (len, Some(len))
    }
}

/// Pushing a token and popping it again gives that token back and leaves the
/// stack as it was.
pub proof fn push_then_pop(s: Colors, c: Color)
    requires
        s.wf(),
        s@.len() < 63,
    ensures
        s@.push(c).len() > 0,
        s@.push(c).last() == c,
        s@.push(c).drop_last() == s@,
        s@.push(c).drop_last().len() == s@.len(),
{
    assert(s@.push(c).drop_last() =~= s@);
}

/// Two stacks that hold the same tokens are the same stack.
pub proof fn same_tokens_same_stack(a: Colors, b: Colors)
    requires
        a.wf(),
        b.wf(),
        a@ == b@,
    ensures
        a == b,
{
    lemma_injective(a.bits, b.bits);
}

/// Stacks with the same raw word are the same stack.
pub proof fn raw_determines(a: Colors, b: Colors)
    requires
        a.raw() == b.raw(),
    ensures
        a == b,
{
}

/// Reversing a stack twice gives back the stack itself.
pub proof fn reverse_twice(s: Colors, once: Colors, twice: Colors)
    requires
        s.wf(),
        once.wf(),
        twice.wf(),
        once@ == reversed(s@),
        twice@ == reversed(once@),
    ensures
        twice == s,
{
    assert(reversed(reversed(s@)) =~= s@);
    same_tokens_same_stack(twice, s);
}

/// What `take` hands out and what it leaves, put back together, is the stack
/// it started from, and their lengths add up.
pub proof fn take_splits(s: Colors, amount: nat)
    requires
        s.wf(),
        amount <= s@.len(),
    ensures
        s@.subrange(s@.len() - amount, s@.len() as int).len() == amount,
        s@.subrange(0, s@.len() - amount).len() == s@.len() - amount,
        s@.subrange(0, s@.len() - amount) + s@.subrange(s@.len() - amount, s@.len() as int)
            == s@,
{
    assert(s@.subrange(0, s@.len() - amount) + s@.subrange(s@.len() - amount, s@.len() as int)
        =~= s@);
}

} // verus!
