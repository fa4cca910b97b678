//! Password generation: one character of every enabled class, the rest
//! from the union of the enabled classes, then a random permutation.

use rand::rngs::ThreadRng;
use rand::seq::IndexedRandom;
use rand::seq::SliceRandom;
use vstd::prelude::*;
use vstd::string::*;
use vstd::utf8::*;

use crate::opts::GenPassOpts;
use crate::text::{ascii_text, decode_text, is_ascii_bytes, lemma_ascii_decodes};

verus! {

/// The four character classes, in the order in which they are served.
#[derive(Debug, Clone, Copy, PartialEq, Eq, Structural)]
pub enum CharClass {
    Upper,
    Lower,
    Number,
    Symbol,
}

/// Why no password was generated.
#[derive(Debug, Clone, Copy, PartialEq, Eq, Structural)]
pub enum GenPassError {
    /// No character class is enabled.
    NoClassSelected,
    /// The length is smaller than the number of enabled classes.
    LengthTooShort,
    /// The generated bytes are not text.
    EncodingError,
}

/// The characters of a class. Letters and digits that are easily taken
/// for one another are left out.
pub open spec fn class_text(class: CharClass) -> Seq<char> {
    match class {
        CharClass::Upper => "ABCDEFGHJKLMNOPQRSTUVWXYZ"@,
        CharClass::Lower => "abcdefghijkmnpqrstuvwxyz"@,
        CharClass::Number => "23456789"@,
        CharClass::Symbol => "!@#$%^&*_"@,
    }
}

/// Whether the options enable a class.
pub open spec fn enabled(opts: GenPassOpts, class: CharClass) -> bool {
    match class {
        CharClass::Upper => opts.uppercase,
        CharClass::Lower => opts.lowercase,
        CharClass::Number => opts.number,
        CharClass::Symbol => opts.symbol,
    }
}

/// The characters that a class contributes: its own where it is enabled,
/// none where it is not.
pub open spec fn share(opts: GenPassOpts, class: CharClass) -> Seq<char> {
    if enabled(opts, class) {
        class_text(class)
    } else {
        Seq::empty()
    }
}

/// 1 for an enabled class, 0 for another.
pub open spec fn weight(opts: GenPassOpts, class: CharClass) -> nat {
    if enabled(opts, class) {
        1
    } else {
        0
    }
}

/// The number of enabled classes that are served before `class`.
pub open spec fn rank(opts: GenPassOpts, class: CharClass) -> nat {
    match class {
        CharClass::Upper => 0,
        CharClass::Lower => weight(opts, CharClass::Upper),
        CharClass::Number => weight(opts, CharClass::Upper) + weight(opts, CharClass::Lower),
        CharClass::Symbol => weight(opts, CharClass::Upper) + weight(opts, CharClass::Lower)
            + weight(opts, CharClass::Number),
    }
}

/// The number of enabled classes.
pub open spec fn enabled_count(opts: GenPassOpts) -> nat {
    rank(opts, CharClass::Symbol) + weight(opts, CharClass::Symbol)
}

/// The allowed alphabet: the enabled classes one after another. A
/// character of two classes would stand in it twice.
pub open spec fn alphabet(opts: GenPassOpts) -> Seq<char> {
    share(opts, CharClass::Upper) + share(opts, CharClass::Lower) + share(opts, CharClass::Number)
        + share(opts, CharClass::Symbol)
}

/// Whether a text holds a character of the pool.
pub open spec fn has_from(text: Seq<char>, pool: Seq<char>) -> bool {
    exists|i: int| 0 <= i < text.len() && pool.contains(#[trigger] text[i])
}

/// Whether every character of a text is one of the pool.
pub open spec fn drawn_from(text: Seq<char>, pool: Seq<char>) -> bool {
    forall|i: int| 0 <= i < text.len() ==> pool.contains(#[trigger] text[i])
}

/// Whether a text holds a character of the class, where the class is
/// enabled.
pub open spec fn covers(opts: GenPassOpts, text: Seq<char>, class: CharClass) -> bool {
    enabled(opts, class) ==> has_from(text, class_text(class))
}

/// Whether a text is a password that the options allow: of the asked
/// length, made of the allowed alphabet, with every enabled class present.
pub open spec fn conforms(opts: GenPassOpts, text: Seq<char>) -> bool {
    &&& text.len() == opts.length
    &&& drawn_from(text, alphabet(opts))
    &&& covers(opts, text, CharClass::Upper)
    &&& covers(opts, text, CharClass::Lower)
    &&& covers(opts, text, CharClass::Number)
    &&& covers(opts, text, CharClass::Symbol)
}

/// The reason for which the options are refused, if they are.
pub open spec fn rejection(opts: GenPassOpts) -> Option<GenPassError> {
    if enabled_count(opts) == 0 {
        Some(GenPassError::NoClassSelected)
    } else if opts.length < enabled_count(opts) {
        Some(GenPassError::LengthTooShort)
    } else {
        None
    }
}

#[verifier::external_type_specification]
#[verifier::external_body]
pub struct ExThreadRng(ThreadRng);

/// `rand::rng`: a handle to the generator of the current thread.
#[verifier::external_body]
fn thread_generator() -> ThreadRng {
    rand::rng()
}

/// `IndexedRandom::choose` on a slice of bytes. From an empty slice it
/// takes nothing; from another it takes one of the slice's elements.
#[verifier::external_body]
fn choose_byte(pool: &[u8], rng: &mut ThreadRng) -> (r: Option<u8>)
    ensures
        pool@.len() == 0 ==> r is None,
        pool@.len() > 0 ==> r is Some && pool@.contains(r.unwrap()),
{
    pool.choose(rng).copied()
}

/// `SliceRandom::shuffle` on the bytes of a vector. It only swaps
/// elements, so the same bytes are there afterwards, each as often as
/// before.
#[verifier::external_body]
fn shuffle_bytes(buf: &mut Vec<u8>, rng: &mut ThreadRng)
    ensures
        final(buf)@.to_multiset() == old(buf)@.to_multiset(),
{
    buf.shuffle(rng);
}

/// `zxcvbn::zxcvbn` without user inputs, and the score of its estimate as
/// a number. The score is one of five steps, 0 to 4. The estimate weighs
/// years in a password against the current year, so nothing is claimed of
/// which step a password gets.
#[verifier::external_body]
fn estimate_score(password: &str) -> (score: u8)
    ensures
        score <= 4,
{
    u8::from(zxcvbn::zxcvbn(password, &[]).score())
}

impl CharClass {
    /// The characters of the class as bytes.
    pub fn pool(self) -> (r: &'static [u8])
        ensures
            r@.len() > 0,
            is_ascii_bytes(r@),
            ascii_text(r@) == class_text(self),
    {
        let text: &'static str = match self {
            CharClass::Upper => "ABCDEFGHJKLMNOPQRSTUVWXYZ",
            CharClass::Lower => "abcdefghijkmnpqrstuvwxyz",
            CharClass::Number => "23456789",
            CharClass::Symbol => "!@#$%^&*_",
        };
        let r = text.as_bytes();
        proof {
            reveal_strlit("ABCDEFGHJKLMNOPQRSTUVWXYZ");
            reveal_strlit("abcdefghijkmnpqrstuvwxyz");
            reveal_strlit("23456789");
            reveal_strlit("!@#$%^&*_");
            assert(is_ascii_chars(text@));
            is_ascii_chars_encode_utf8(text@);
            assert(ascii_text(r@) =~= text@);
        }
        r
    }
}

/// Among ASCII bytes a byte is found exactly where its character is found
/// in the text of those bytes.
pub proof fn lemma_ascii_contains(bytes: Seq<u8>, b: u8)
    requires
        is_ascii_bytes(bytes),
        b < 128,
    ensures
        bytes.contains(b) <==> ascii_text(bytes).contains(b as char),
{
    let text = ascii_text(bytes);
    if bytes.contains(b) {
        let i = choose|i: int| 0 <= i < bytes.len() && bytes[i] == b;
        assert(text[i] == b as char);
    }
    if text.contains(b as char) {
        let i = choose|i: int| 0 <= i < text.len() && text[i] == b as char;
        assert(bytes[i] < 128);
        assert(bytes[i] as char == b as char);
        assert(bytes[i] == b);
    }
}

/// The characters of an enabled class all stand in the allowed alphabet.
pub proof fn lemma_class_in_alphabet(opts: GenPassOpts, class: CharClass, c: char)
    requires
        enabled(opts, class),
        class_text(class).contains(c),
    ensures
        alphabet(opts).contains(c),
{
    let i = choose|i: int| 0 <= i < class_text(class).len() && class_text(class)[i] == c;
    let upper = share(opts, CharClass::Upper);
    let lower = share(opts, CharClass::Lower);
    let number = share(opts, CharClass::Number);
    match class {
        CharClass::Upper => {
            assert(alphabet(opts)[i] == c);
        },
        CharClass::Lower => {
            assert(alphabet(opts)[upper.len() + i] == c);
        },
        CharClass::Number => {
            assert(alphabet(opts)[upper.len() + lower.len() + i] == c);
        },
        CharClass::Symbol => {
            assert(alphabet(opts)[upper.len() + lower.len() + number.len() + i] == c);
        },
    }
}

/// A password stays a password that the options allow when its
/// characters are put in another order.
pub proof fn lemma_permutation_conforms(opts: GenPassOpts, before: Seq<u8>, after: Seq<u8>)
    requires
        before.to_multiset() == after.to_multiset(),
        is_ascii_bytes(before),
        conforms(opts, ascii_text(before)),
    ensures
        is_ascii_bytes(after),
        conforms(opts, ascii_text(after)),
{
    before.to_multiset_ensures();
    after.to_multiset_ensures();
    let old_text = ascii_text(before);
    let new_text = ascii_text(after);
    assert forall|i: int| 0 <= i < after.len() implies #[trigger] after[i] < 128
        && alphabet(opts).contains(new_text[i]) by {
        assert(after.contains(after[i]));
        assert(before.to_multiset().count(after[i]) > 0);
        assert(before.contains(after[i]));
        let j = choose|j: int| 0 <= j < before.len() && before[j] == after[i];
        assert(before[j] < 128);
        assert(alphabet(opts).contains(old_text[j]));
    }
    assert(drawn_from(new_text, alphabet(opts)));
    assert forall|class: CharClass| enabled(opts, class) implies has_from(
        new_text,
        class_text(class),
    ) by {
        assert(covers(opts, old_text, class));
        let j = choose|j: int|
            0 <= j < old_text.len() && class_text(class).contains(#[trigger] old_text[j]);
        assert(before.contains(before[j]));
        assert(after.to_multiset().count(before[j]) > 0);
        assert(after.contains(before[j]));
        let i = choose|i: int| 0 <= i < after.len() && after[i] == before[j];
        assert(new_text[i] == old_text[j]);
    }
    assert(covers(opts, new_text, CharClass::Upper));
    assert(covers(opts, new_text, CharClass::Lower));
    assert(covers(opts, new_text, CharClass::Number));
    assert(covers(opts, new_text, CharClass::Symbol));
}

impl GenPassOpts {
    /// Whether a class is enabled.
    pub fn enables(&self, class: CharClass) -> (r: bool)
        ensures
            r == enabled(*self, class),
    {
        match class {
            CharClass::Upper => self.uppercase,
            CharClass::Lower => self.lowercase,
            CharClass::Number => self.number,
            CharClass::Symbol => self.symbol,
        }
    }

    /// The number of enabled classes.
    pub fn enabled_classes(&self) -> (n: u8)
        ensures
            n == enabled_count(*self),
    {
        let mut n: u8 = 0;
        if self.uppercase {
            n += 1;
        }
        if self.lowercase {
            n += 1;
        }
        if self.number {
            n += 1;
        }
        if self.symbol {
            n += 1;
        }
        n
    }

    /// Refuses options that enable no class, and options whose length
    /// leaves no room for one character of every enabled class.
    pub fn validate(&self) -> (r: Result<(), GenPassError>)
        ensures
            match r {
                Ok(()) => rejection(*self) is None,
                Err(e) => rejection(*self) == Some(e),
            },
    {
        let k: u8 = self.enabled_classes();
        if k == 0 {
            Err(GenPassError::NoClassSelected)
        } else if self.length < k {
            Err(GenPassError::LengthTooShort)
        } else {
            Ok(())
        }
    }
}

/// The allowed alphabet as bytes: the enabled classes one after another,
/// in the order upper case, lower case, digits, symbols.
pub fn allowed_alphabet(opts: &GenPassOpts) -> (r: Vec<u8>)
    ensures
        is_ascii_bytes(r@),
        ascii_text(r@) == alphabet(*opts),
{
    let mut chars: Vec<u8> = Vec::new();
    assert(ascii_text(chars@) =~= Seq::<char>::empty());
    if opts.uppercase {
        chars.extend_from_slice(CharClass::Upper.pool());
    }
    assert(ascii_text(chars@) =~= share(*opts, CharClass::Upper));
    let ghost one = chars@;
    if opts.lowercase {
        chars.extend_from_slice(CharClass::Lower.pool());
    }
    assert(ascii_text(chars@) =~= ascii_text(one) + share(*opts, CharClass::Lower));
    let ghost two = chars@;
    if opts.number {
        chars.extend_from_slice(CharClass::Number.pool());
    }
    assert(ascii_text(chars@) =~= ascii_text(two) + share(*opts, CharClass::Number));
    let ghost three = chars@;
    if opts.symbol {
        chars.extend_from_slice(CharClass::Symbol.pool());
    }
    assert(ascii_text(chars@) =~= ascii_text(three) + share(*opts, CharClass::Symbol));
    chars
}

/// Appends one character drawn from the class.
fn push_drawn(buf: &mut Vec<u8>, class: CharClass, rng: &mut ThreadRng)
    ensures
        final(buf)@.len() == old(buf)@.len() + 1,
        final(buf)@.drop_last() == old(buf)@,
        final(buf)@.last() < 128,
        class_text(class).contains(final(buf)@.last() as char),
{
    let pool = class.pool();
    match choose_byte(pool, rng) {
        Some(b) => {
            proof {
                let i = choose|i: int| 0 <= i < pool@.len() && pool@[i] == b;
                assert(pool@[i] < 128);
                lemma_ascii_contains(pool@, b);
            }
            buf.push(b);
            assert(buf@.drop_last() =~= old(buf)@);
        },
        None => {},
    }
}

/// The guaranteed characters: for every enabled class one character drawn
/// from it, in the order upper case, lower case, digits, symbols.
pub fn draw_required(opts: &GenPassOpts, rng: &mut ThreadRng) -> (buf: Vec<u8>)
    ensures
        buf@.len() == enabled_count(*opts),
        is_ascii_bytes(buf@),
        forall|class: CharClass|
            enabled(*opts, class) ==> class_text(class).contains(
                #[trigger] ascii_text(buf@)[rank(*opts, class) as int],
            ),
{
    let mut buf: Vec<u8> = Vec::new();
    if opts.uppercase {
        push_drawn(&mut buf, CharClass::Upper, rng);
    }
    let ghost one = buf@;
    if opts.lowercase {
        push_drawn(&mut buf, CharClass::Lower, rng);
    }
    let ghost two = buf@;
    assert(two.subrange(0, one.len() as int) =~= one);
    if opts.number {
        push_drawn(&mut buf, CharClass::Number, rng);
    }
    let ghost three = buf@;
    assert(three.subrange(0, two.len() as int) =~= two);
    if opts.symbol {
        push_drawn(&mut buf, CharClass::Symbol, rng);
    }
    assert(buf@.subrange(0, three.len() as int) =~= three);
    proof {
        assert forall|class: CharClass| enabled(*opts, class) implies class_text(class).contains(
            #[trigger] ascii_text(buf@)[rank(*opts, class) as int],
        ) by {
            let at = rank(*opts, class) as int;
            match class {
                CharClass::Upper => {
                    assert(buf@[at] == one.last());
                },
                CharClass::Lower => {
                    assert(buf@[at] == two.last());
                },
                CharClass::Number => {
                    assert(buf@[at] == three.last());
                },
                CharClass::Symbol => {
                    assert(buf@[at] == buf@.last());
                },
            }
        }
    }
    buf
}

/// Appends characters drawn from the pool until the buffer has the given
/// length. A buffer that is that long already is left as it is. Where
/// something is to be drawn, the pool must hold something.
pub fn fill_remaining(buf: &mut Vec<u8>, pool: &[u8], length: usize, rng: &mut ThreadRng)
    requires
        old(buf)@.len() < length ==> pool@.len() > 0,
    ensures
        final(buf)@.len() == if old(buf)@.len() < length {
            length as int
        } else {
            old(buf)@.len() as int
        },
        final(buf)@.subrange(0, old(buf)@.len() as int) == old(buf)@,
        forall|i: int|
            old(buf)@.len() <= i < final(buf)@.len() ==> pool@.contains(#[trigger] final(buf)@[i]),
{
    assert(buf@.subrange(0, old(buf)@.len() as int) =~= old(buf)@);
    while buf.len() < length
        invariant
            old(buf)@.len() < length ==> pool@.len() > 0,
            old(buf)@.len() <= buf@.len(),
            buf@.len() <= length || buf@.len() == old(buf)@.len(),
            buf@.subrange(0, old(buf)@.len() as int) == old(buf)@,
            forall|i: int| old(buf)@.len() <= i < buf@.len() ==> pool@.contains(#[trigger] buf@[i]),
        decreases length - buf@.len(),
    {
        let ghost so_far = buf@;
        match choose_byte(pool, rng) {
            Some(b) => {
                buf.push(b);
            },
            None => {},
        }
        assert(buf@.subrange(0, old(buf)@.len() as int) =~= so_far.subrange(
            0,
            old(buf)@.len() as int,
        ));
    }
}

/// Generates a password: the guaranteed characters, the remainder from the
/// allowed alphabet, and a random permutation of the whole. Options that
/// cannot be served are refused before anything is drawn.
pub fn generate(opts: &GenPassOpts, rng: &mut ThreadRng) -> (r: Result<String, GenPassError>)
    ensures
        match r {
            Ok(password) => rejection(*opts) is None && conforms(*opts, password@),
            Err(e) => rejection(*opts) == Some(e),
        },
{
    match opts.validate() {
        Err(e) => {
            return Err(e);
        },
        Ok(()) => {},
    }
    let pool = allowed_alphabet(opts);
    let mut buf = draw_required(opts, rng);
    let ghost required = buf@;
    assert(pool@.len() > 0) by {
        reveal_strlit("ABCDEFGHJKLMNOPQRSTUVWXYZ");
        reveal_strlit("abcdefghijkmnpqrstuvwxyz");
        reveal_strlit("23456789");
        reveal_strlit("!@#$%^&*_");
        assert(ascii_text(pool@).len() == alphabet(*opts).len());
    }
    fill_remaining(&mut buf, pool.as_slice(), opts.length as usize, rng);
    let ghost filled = buf@;
    proof {
        let text = ascii_text(filled);
        assert(filled.len() == opts.length);
        assert forall|i: int| 0 <= i < filled.len() implies #[trigger] filled[i] < 128
            && alphabet(*opts).contains(text[i]) by {
            if i < required.len() {
                assert(filled[i] == filled.subrange(0, required.len() as int)[i]);
                assert(required[i] < 128);
                lemma_required_in_alphabet(*opts, required, i);
            } else {
                assert(pool@.contains(filled[i]));
                let j = choose|j: int| 0 <= j < pool@.len() && pool@[j] == filled[i];
                assert(pool@[j] < 128);
                lemma_ascii_contains(pool@, filled[i]);
            }
        }
        assert(drawn_from(text, alphabet(*opts)));
        assert forall|class: CharClass| enabled(*opts, class) implies has_from(
            text,
            class_text(class),
        ) by {
            let at = rank(*opts, class) as int;
            assert(class_text(class).contains(ascii_text(required)[at]));
            assert(filled[at] == filled.subrange(0, required.len() as int)[at]);
            assert(text[at] == ascii_text(required)[at]);
        }
        assert(covers(*opts, text, CharClass::Upper));
        assert(covers(*opts, text, CharClass::Lower));
        assert(covers(*opts, text, CharClass::Number));
        assert(covers(*opts, text, CharClass::Symbol));
    }
    shuffle_bytes(&mut buf, rng);
    proof {
        lemma_permutation_conforms(*opts, filled, buf@);
        lemma_ascii_decodes(buf@);
    }
    match decode_text(buf) {
        Some(password) => Ok(password),
        None => Err(GenPassError::EncodingError),
    }
}

/// Every guaranteed character stands in the allowed alphabet.
proof fn lemma_required_in_alphabet(opts: GenPassOpts, required: Seq<u8>, i: int)
    requires
        0 <= i < required.len(),
        required.len() == enabled_count(opts),
        forall|class: CharClass|
            enabled(opts, class) ==> class_text(class).contains(
                #[trigger] ascii_text(required)[rank(opts, class) as int],
            ),
    ensures
        alphabet(opts).contains(ascii_text(required)[i]),
{
    let c = ascii_text(required)[i];
    if enabled(opts, CharClass::Upper) && rank(opts, CharClass::Upper) == i {
        lemma_class_in_alphabet(opts, CharClass::Upper, c);
    } else if enabled(opts, CharClass::Lower) && rank(opts, CharClass::Lower) == i {
        lemma_class_in_alphabet(opts, CharClass::Lower, c);
    } else if enabled(opts, CharClass::Number) && rank(opts, CharClass::Number) == i {
        lemma_class_in_alphabet(opts, CharClass::Number, c);
    } else {
        assert(enabled(opts, CharClass::Symbol) && rank(opts, CharClass::Symbol) == i);
        lemma_class_in_alphabet(opts, CharClass::Symbol, c);
    }
}

/// Generates a password of the given length from the enabled classes and
/// rates its strength on a scale from 0 to 4.
pub fn process_genpass(length: u8, upper: bool, lower: bool, number: bool, symbol: bool) -> (r:
    Result<(String, u8), GenPassError>)
    ensures
        match r {
            Ok((password, score)) => {
                &&& rejection(options(length, upper, lower, number, symbol)) is None
                &&& conforms(options(length, upper, lower, number, symbol), password@)
                &&& score <= 4
            },
            Err(e) => rejection(options(length, upper, lower, number, symbol)) == Some(e),
        },
{
    let opts = GenPassOpts { length, uppercase: upper, lowercase: lower, number, symbol };
    let mut rng = thread_generator();
    match generate(&opts, &mut rng) {
        Ok(password) => {
            let score = estimate_score(password.as_str());
            Ok((password, score))
        },
        Err(e) => Err(e),
    }
}

/// The options made of a length and the four switches.
pub open spec fn options(length: u8, upper: bool, lower: bool, number: bool, symbol: bool) -> GenPassOpts {
    GenPassOpts { length, uppercase: upper, lowercase: lower, number, symbol }
}

/// Whether some byte of `bytes` is one of the pool.
fn any_from(bytes: &[u8], pool: &[u8]) -> (r: bool)
    requires
        is_ascii_bytes(bytes@),
        is_ascii_bytes(pool@),
    ensures
        r == has_from(ascii_text(bytes@), ascii_text(pool@)),
{
    let mut i: usize = 0;
    while i < bytes.len()
        invariant
            i <= bytes@.len(),
            is_ascii_bytes(bytes@),
            is_ascii_bytes(pool@),
            forall|j: int| 0 <= j < i ==> !ascii_text(pool@).contains(#[trigger] ascii_text(bytes@)[j]),
        decreases bytes@.len() - i,
    {
        proof {
            assert(bytes@[i as int] < 128);
            lemma_ascii_contains(pool@, bytes@[i as int]);
        }
        if holds(pool, bytes[i]) {
            assert(ascii_text(pool@).contains(ascii_text(bytes@)[i as int]));
            return true;
        }
        i += 1;
    }
    false
}

/// Whether every byte of `bytes` is one of the pool.
fn all_from(bytes: &[u8], pool: &[u8]) -> (r: bool)
    requires
        is_ascii_bytes(bytes@),
        is_ascii_bytes(pool@),
    ensures
        r == drawn_from(ascii_text(bytes@), ascii_text(pool@)),
{
    let mut i: usize = 0;
    while i < bytes.len()
        invariant
            i <= bytes@.len(),
            is_ascii_bytes(bytes@),
            is_ascii_bytes(pool@),
            forall|j: int| 0 <= j < i ==> ascii_text(pool@).contains(#[trigger] ascii_text(bytes@)[j]),
        decreases bytes@.len() - i,
    {
        proof {
            assert(bytes@[i as int] < 128);
            lemma_ascii_contains(pool@, bytes@[i as int]);
        }
        if !holds(pool, bytes[i]) {
            assert(!ascii_text(pool@).contains(ascii_text(bytes@)[i as int]));
            return false;
        }
        i += 1;
    }
    true
}

/// Whether the pool holds the byte.
fn holds(pool: &[u8], b: u8) -> (r: bool)
    ensures
        r == pool@.contains(b),
{
    let mut i: usize = 0;
    while i < pool.len()
        invariant
            i <= pool@.len(),
            forall|j: int| 0 <= j < i ==> pool@[j] != b,
        decreases pool@.len() - i,
    {
        if pool[i] == b {
            return true;
        }
        i += 1;
    }
    false
}

/// Decides whether a text is a password that the options allow: whether
/// it has the asked length, is made of the allowed alphabet and holds a
/// character of every enabled class.
pub fn conforms_to(opts: &GenPassOpts, password: &str) -> (r: bool)
    ensures
        r == conforms(*opts, password@),
{
    let pool = allowed_alphabet(opts);
    if !password.is_ascii() {
        proof {
            let i = choose|i: int|
                0 <= i < password@.len() && !('\0' <= #[trigger] password@[i] <= '\u{7f}');
            if alphabet(*opts).contains(password@[i]) {
                let j = choose|j: int|
                    0 <= j < alphabet(*opts).len() && alphabet(*opts)[j] == password@[i];
                assert(ascii_text(pool@)[j] == pool@[j] as char);
                assert(pool@[j] < 128);
            }
        }
        return false;
    }
    let bytes = password.as_bytes();
    proof {
        is_ascii_chars_encode_utf8(password@);
        assert(is_ascii_bytes(bytes@)) by {
            assert forall|i: int| 0 <= i < bytes@.len() implies #[trigger] bytes@[i] < 128 by {
                assert('\0' <= password@[i] <= '\u{7f}');
            }
        }
        assert(ascii_text(bytes@) =~= password@) by {
            assert forall|i: int| 0 <= i < bytes@.len() implies ascii_text(bytes@)[i]
                == password@[i] by {
                assert('\0' <= password@[i] <= '\u{7f}');
            }
        }
    }
    if bytes.len() != opts.length as usize {
        return false;
    }
    if !all_from(bytes, pool.as_slice()) {
        return false;
    }
    (!opts.uppercase || any_from(bytes, CharClass::Upper.pool())) && (!opts.lowercase || any_from(
        bytes,
        CharClass::Lower.pool(),
    )) && (!opts.number || any_from(bytes, CharClass::Number.pool())) && (!opts.symbol || any_from(
        bytes,
        CharClass::Symbol.pool(),
    ))
}

/// Options that enable no class are refused for that, whatever the length.
pub proof fn lemma_no_class_selected(opts: GenPassOpts)
    requires
        !opts.uppercase,
        !opts.lowercase,
        !opts.number,
        !opts.symbol,
    ensures
        rejection(opts) == Some(GenPassError::NoClassSelected),
{
}

/// Options that enable a class and ask for fewer characters than they
/// enable classes are refused as too short.
pub proof fn lemma_length_too_short(opts: GenPassOpts)
    requires
        opts.uppercase || opts.lowercase || opts.number || opts.symbol,
        opts.length < enabled_count(opts),
    ensures
        rejection(opts) == Some(GenPassError::LengthTooShort),
{
}

/// Options are served exactly if they enable a class and ask for at least
/// as many characters as they enable classes.
pub proof fn lemma_served_iff_valid(opts: GenPassOpts)
    ensures
        rejection(opts) is None <==> 1 <= enabled_count(opts) <= opts.length,
{
}

} // verus!
