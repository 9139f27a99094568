//! Prizes and catalog entries: a stable identifier derived from a prize's
//! name, the prize itself, and the catalog entry that pairs a prize with a
//! current and an original quantity.

use vstd::prelude::*;
use vstd::string::StringSliceAdditionalSpecFns;

verus! {

/// The FNV-1a hash of a byte sequence, on 64 bits with wraparound
/// arithmetic.
pub open spec fn fnv1a(bytes: Seq<u8>) -> u64
    decreases bytes.len(),
{
    if bytes.len() == 0 {
        0xcbf29ce484222325
    } else {
        ((((fnv1a(bytes.drop_last()) ^ (bytes.last() as u64)) as int) * 0x100000001b3) % (
        u64::MAX as int + 1)) as u64
    }
}

/// The identifier a prize name maps to: the FNV-1a hash of its bytes.
/// Equal names always map to equal identifiers.
pub open spec fn id_of(name: &str) -> u64 {
    fnv1a(name.spec_bytes())
}

/// The decimal digits of a non-negative number, most significant first;
/// empty for zero.
pub open spec fn dec_digits(n: int) -> Seq<char>
    decreases n,
{
    if n <= 0 {
        Seq::empty()
    } else {
        dec_digits(n / 10).push(digit_char(n % 10))
    }
}

/// The decimal rendering of a non-negative number; "0" for zero.
pub open spec fn dec_str(n: int) -> Seq<char> {
    if n == 0 {
        seq!['0']
    } else {
        dec_digits(n)
    }
}

/// The character for one decimal digit.
pub open spec fn digit_char(d: int) -> char {
    if d == 0 {
        '0'
    } else if d == 1 {
        '1'
    } else if d == 2 {
        '2'
    } else if d == 3 {
        '3'
    } else if d == 4 {
        '4'
    } else if d == 5 {
        '5'
    } else if d == 6 {
        '6'
    } else if d == 7 {
        '7'
    } else if d == 8 {
        '8'
    } else {
        '9'
    }
}

/// A stable identifier for a prize, derived deterministically from the
/// prize's name.
#[derive(Debug, Clone, Copy, PartialEq, Eq, Hash, Structural)]
pub struct PrizeId(u64);

impl View for PrizeId {
    type V = u64;

    closed spec fn view(&self) -> u64 {
        self.0
    }
}

/// Two identifiers are the same value exactly when they hold the same
/// number.
pub proof fn lemma_prize_id_eq(a: PrizeId, b: PrizeId)
    ensures
        (a == b) <==> (a@ == b@),
{
}

impl PrizeId {
    /// Derive the identifier for a name by hashing the name's bytes.
    pub fn new(name: &str) -> (r: Self)
        ensures
            r@ == id_of(name),
    {
        let bytes = name.as_bytes();
        let mut h: u64 = 0xcbf29ce484222325;
        let mut i: usize = 0;
        while i < bytes.len()
            invariant
                i <= bytes@.len(),
                h == fnv1a(bytes@.take(i as int)),
            decreases bytes@.len() - i,
        {
            let b = bytes[i];
            h = (h ^ (b as u64)).wrapping_mul(0x100000001b3);
            i = i + 1;
            proof {
                assert(bytes@.take(i as int).drop_last() =~= bytes@.take(i - 1));
                assert(bytes@.take(i as int).last() == b);
            }
        }
        proof {
            assert(bytes@.take(bytes@.len() as int) =~= bytes@);
        }
        PrizeId(h)
    }

    /// The identifier as a plain number.
    pub fn get_id(&self) -> (r: u64)
        ensures
            r == self@,
    {
        self.0
    }

    /// The identifier rendered as its decimal digits.
    pub fn to_string(&self) -> (r: String)
        ensures
            r@ == dec_str(self@ as int),
    {
        let mut n: u64 = self.0;
        if n == 0 {
            let r = "0".to_owned();
            proof {
                reveal_strlit("0");
                assert(r@ =~= dec_str(0));
            }
            return r;
        }
        let mut digits: Vec<u64> = Vec::new();
        proof {
            assert(dec_digits(self@ as int) =~= dec_digits(n as int) + rev_digit_chars(digits@));
        }
        while n > 0
            invariant
                forall|t: int| 0 <= t < digits@.len() ==> #[trigger] digits@[t] < 10,
                dec_digits(self@ as int) =~= dec_digits(n as int) + rev_digit_chars(digits@),
            decreases n,
        {
            let ghost m = n as int;
            let ghost pre = digits@;
            let d = n % 10;
            n = n / 10;
            digits.push(d);
            proof {
                assert(digits@.drop_last() =~= pre);
                assert(rev_digit_chars(digits@) =~= seq![digit_char(d as int)] + rev_digit_chars(
                    pre,
                ));
                lemma_dec_digits_step(m);
                assert(dec_digits(self@ as int) =~= (dec_digits(n as int) + seq![
                    digit_char(d as int),
                ]) + rev_digit_chars(pre));
                assert((dec_digits(n as int) + seq![digit_char(d as int)]) + rev_digit_chars(pre)
                    =~= dec_digits(n as int) + rev_digit_chars(digits@));
            }
        }
        let mut r = String::new();
        let mut i: usize = digits.len();
        proof {
            assert(digits@.take(i as int) =~= digits@);
            assert(dec_digits(self@ as int) =~= r@ + rev_digit_chars(digits@.take(i as int)));
        }
        while i > 0
            invariant
                i <= digits@.len(),
                forall|t: int| 0 <= t < digits@.len() ==> #[trigger] digits@[t] < 10,
                dec_digits(self@ as int) =~= r@ + rev_digit_chars(digits@.take(i as int)),
            decreases i,
        {
            i = i - 1;
            let ghost pre_r = r@;
            let d = digits[i];
            append_digit(&mut r, d);
            proof {
                assert(digits@.take(i + 1).drop_last() =~= digits@.take(i as int));
                assert(digits@.take(i + 1).last() == digits@[i as int]);
                assert(rev_digit_chars(digits@.take(i + 1)) =~= seq![
                    digit_char(digits@[i as int] as int),
                ] + rev_digit_chars(digits@.take(i as int)));
                assert(pre_r + rev_digit_chars(digits@.take(i + 1)) =~= r@ + rev_digit_chars(
                    digits@.take(i as int),
                ));
            }
        }
        proof {
            assert(rev_digit_chars(digits@.take(0)) =~= Seq::<char>::empty());
            assert(r@ =~= dec_digits(self@ as int));
        }
        r
    }
}

/// What a prize is at the specification level: its identifier and its name.
pub struct PrizeItemV {
    pub id: u64,
    pub name: Seq<char>,
}

/// A prize: a stable identifier together with a display name.
#[derive(Debug)]
pub struct PrizeItem {
    id: PrizeId,
    pub name: String,
}

impl View for PrizeItem {
    type V = PrizeItemV;

    closed spec fn view(&self) -> PrizeItemV {
        PrizeItemV { id: self.id@, name: self.name@ }
    }
}

impl Clone for PrizeItem {
    /// Cloning keeps the identifier and the name.
    fn clone(&self) -> (r: Self)
        ensures
            r@ == self@,
    {
        PrizeItem { id: self.id, name: self.name.clone() }
    }
}

impl PrizeItem {
    /// Make a prize from a name; the identifier is derived from the name,
    /// so the same name always yields the same identifier.
    pub fn new(name: &str) -> (r: Self)
        ensures
            r@.id == id_of(name),
            r@.name == name@,
    {
        PrizeItem { id: PrizeId::new(name), name: name.to_owned() }
    }
}

/// Access to the stable identifier of anything that stands for a prize.
pub trait GetPrizeItemId {
    /// The identifier at the specification level.
    spec fn spec_id(&self) -> u64;

    /// The identifier of this prize.
    fn get_id(&self) -> (r: PrizeId)
        ensures
            r@ == self.spec_id(),
    ;
}

impl GetPrizeItemId for PrizeItem {
    open spec fn spec_id(&self) -> u64 {
        self@.id
    }

    fn get_id(&self) -> (r: PrizeId) {
        self.id
    }
}

/// What a catalog entry is at the specification level: a prize, how many
/// units of it remain, and how many it started with.
pub struct GashaponItemV {
    pub prize: PrizeItemV,
    pub quantity: u64,
    pub original: u64,
}

/// A catalog entry: a prize with its current quantity and the original
/// quantity that a restore goes back to.
#[derive(Debug)]
pub struct GashaponItem {
    pub prize: PrizeItem,
    pub quantity: u64,
    original_quantity: u64,
}

impl View for GashaponItem {
    type V = GashaponItemV;

    closed spec fn view(&self) -> GashaponItemV {
        GashaponItemV { prize: self.prize@, quantity: self.quantity, original: self.original_quantity }
    }
}

impl Clone for GashaponItem {
    /// Cloning keeps the prize and both quantities.
    fn clone(&self) -> (r: Self)
        ensures
            r@ == self@,
    {
        GashaponItem {
            prize: self.prize.clone(),
            quantity: self.quantity,
            original_quantity: self.original_quantity,
        }
    }
}

impl GashaponItem {
    /// Wrap a prize in a catalog entry with both quantities zero.
    pub fn new(prize: PrizeItem) -> (r: Self)
        ensures
            r@.prize == prize@,
            r@.quantity == 0,
            r@.original == 0,
    {
        GashaponItem { prize, quantity: 0, original_quantity: 0 }
    }

    /// Set both the current and the original quantity.
    pub fn with_quantity(self, quantity: u64) -> (r: Self)
        ensures
            r@.prize == self@.prize,
            r@.quantity == quantity,
            r@.original == quantity,
    {
        GashaponItem { quantity, original_quantity: quantity, ..self }
    }

    /// The entry's prize, borrowed.
    pub fn get_prize(&self) -> (r: &PrizeItem)
        ensures
            r@ == self@.prize,
    {
        &self.prize
    }

    /// The entry's current quantity.
    pub fn get_quantity(&self) -> (r: u64)
        ensures
            r == self@.quantity,
    {
        self.quantity
    }

    /// The identifier of the entry's prize.
    pub fn get_prize_id(&self) -> (r: PrizeId)
        ensures
            r@ == self@.prize.id,
    {
        self.prize.get_id()
    }

    /// Set the current quantity back to the original quantity.
    pub fn restore(&mut self)
        ensures
            final(self)@.prize == old(self)@.prize,
            final(self)@.quantity == old(self)@.original,
            final(self)@.original == old(self)@.original,
    {
        self.quantity = self.original_quantity;
    }

    /// Set the current quantity alone; the original quantity keeps its
    /// value, so a later restore is unaffected.
    pub fn set_quantity(&mut self, quantity: u64)
        ensures
            final(self)@.prize == old(self)@.prize,
            final(self)@.quantity == quantity,
            final(self)@.original == old(self)@.original,
    {
        self.quantity = quantity;
    }

    /// Take one unit away from the current quantity.
    pub fn decrement(&mut self)
        requires
            old(self)@.quantity > 0,
        ensures
            final(self)@.prize == old(self)@.prize,
            final(self)@.quantity == old(self)@.quantity - 1,
            final(self)@.original == old(self)@.original,
    {
        self.quantity = self.quantity - 1;
    }
}

/// A sequence of prizes, seen at the specification level.
pub open spec fn prizes_view(s: Seq<PrizeItem>) -> Seq<PrizeItemV> {
    s.map_values(|p: PrizeItem| p@)
}

/// A sequence of catalog entries, seen at the specification level.
pub open spec fn catalog_view(s: Seq<GashaponItem>) -> Seq<GashaponItemV> {
    s.map_values(|it: GashaponItem| it@)
}

/// The digit characters of a reversed digit list, most significant first.
pub open spec fn rev_digit_chars(digits: Seq<u64>) -> Seq<char>
    decreases digits.len(),
{
    if digits.len() == 0 {
        Seq::empty()
    } else {
        seq![digit_char(digits.last() as int)] + rev_digit_chars(digits.drop_last())
    }
}

/// Splitting off the last decimal digit appends its character.
pub proof fn lemma_dec_digits_step(n: int)
    requires
        n > 0,
    ensures
        dec_digits(n) =~= dec_digits(n / 10) + seq![digit_char(n % 10)],
{
}

/// Append one decimal digit's character to a string.
fn append_digit(s: &mut String, d: u64)
    requires
        d < 10,
    ensures
        final(s)@ == old(s)@ + seq![digit_char(d as int)],
{
    if d == 0 {
        s.append("0");
        proof {
            reveal_strlit("0");
            assert(final(s)@ =~= old(s)@ + seq![digit_char(d as int)]);
        }
    } else if d == 1 {
        s.append("1");
        proof {
            reveal_strlit("1");
            assert(final(s)@ =~= old(s)@ + seq![digit_char(d as int)]);
        }
    } else if d == 2 {
        s.append("2");
        proof {
            reveal_strlit("2");
            assert(final(s)@ =~= old(s)@ + seq![digit_char(d as int)]);
        }
    } else if d == 3 {
        s.append("3");
        proof {
            reveal_strlit("3");
            assert(final(s)@ =~= old(s)@ + seq![digit_char(d as int)]);
        }
    } else if d == 4 {
        s.append("4");
        proof {
            reveal_strlit("4");
            assert(final(s)@ =~= old(s)@ + seq![digit_char(d as int)]);
        }
    } else if d == 5 {
        s.append("5");
        proof {
            reveal_strlit("5");
            assert(final(s)@ =~= old(s)@ + seq![digit_char(d as int)]);
        }
    } else if d == 6 {
        s.append("6");
        proof {
            reveal_strlit("6");
            assert(final(s)@ =~= old(s)@ + seq![digit_char(d as int)]);
        }
    } else if d == 7 {
        s.append("7");
        proof {
            reveal_strlit("7");
            assert(final(s)@ =~= old(s)@ + seq![digit_char(d as int)]);
        }
    } else if d == 8 {
        s.append("8");
        proof {
            reveal_strlit("8");
            assert(final(s)@ =~= old(s)@ + seq![digit_char(d as int)]);
        }
    } else {
        s.append("9");
        proof {
            reveal_strlit("9");
            assert(final(s)@ =~= old(s)@ + seq![digit_char(d as int)]);
        }
    }
}

} // verus!
