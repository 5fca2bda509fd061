//! The Morse alphabet codec: the fixed letter-to-pattern table and the
//! conversions between textual dot/dash notation and bit-vector form.
//! A dot is `false`, a dash is `true`.

use vstd::prelude::*;

verus! {

/// Errors surfaced to the caller before the search starts.
#[derive(Debug, Clone, Copy, PartialEq, Eq, Structural)]
pub enum ValidationError {
    /// The input holds a character that is neither a dot nor a dash.
    InvalidCharacter,
    /// The input's length is not the length of a smooshed alphabet.
    WrongLength,
}

/// The two symbols of textual Morse notation.
pub open spec fn is_morse_symbol(c: char) -> bool {
    c == '.' || c == '-'
}

/// The letters the codec covers.
pub open spec fn is_alphabet_letter(c: char) -> bool {
    'a' <= c && c <= 'z'
}

/// The canonical alphabet, in order.
pub open spec fn alphabet() -> Seq<char> {
    seq![
        'a', 'b', 'c', 'd', 'e', 'f', 'g', 'h', 'i', 'j', 'k', 'l', 'm',
        'n', 'o', 'p', 'q', 'r', 's', 't', 'u', 'v', 'w', 'x', 'y', 'z',
    ]
}

/// The Morse pattern of a letter, dots as `false` and dashes as `true`;
/// empty for anything outside the alphabet.
pub open spec fn morse_code(c: char) -> Seq<bool> {
    if c == 'a' {
        seq![false, true]
    } else if c == 'b' {
        seq![true, false, false, false]
    } else if c == 'c' {
        seq![true, false, true, false]
    } else if c == 'd' {
        seq![true, false, false]
    } else if c == 'e' {
        seq![false]
    } else if c == 'f' {
        seq![false, false, true, false]
    } else if c == 'g' {
        seq![true, true, false]
    } else if c == 'h' {
        seq![false, false, false, false]
    } else if c == 'i' {
        seq![false, false]
    } else if c == 'j' {
        seq![false, true, true, true]
    } else if c == 'k' {
        seq![true, false, true]
    } else if c == 'l' {
        seq![false, true, false, false]
    } else if c == 'm' {
        seq![true, true]
    } else if c == 'n' {
        seq![true, false]
    } else if c == 'o' {
        seq![true, true, true]
    } else if c == 'p' {
        seq![false, true, true, false]
    } else if c == 'q' {
        seq![true, true, false, true]
    } else if c == 'r' {
        seq![false, true, false]
    } else if c == 's' {
        seq![false, false, false]
    } else if c == 't' {
        seq![true]
    } else if c == 'u' {
        seq![false, false, true]
    } else if c == 'v' {
        seq![false, false, false, true]
    } else if c == 'w' {
        seq![false, true, true]
    } else if c == 'x' {
        seq![true, false, false, true]
    } else if c == 'y' {
        seq![true, false, true, true]
    } else if c == 'z' {
        seq![true, true, false, false]
    } else {
        Seq::empty()
    }
}

/// The smooshed encoding of a word: its letters' patterns concatenated
/// without separators.
pub open spec fn smoosh(s: Seq<char>) -> Seq<bool>
    decreases s.len(),
{
    if s.len() == 0 {
        Seq::empty()
    } else {
        morse_code(s[0]) + smoosh(s.drop_first())
    }
}

/// The bit-vector form of a textual Morse string: a dash is `true`.
pub open spec fn merse_of(s: Seq<char>) -> Seq<bool> {
    Seq::new(s.len(), |i: int| s[i] == '-')
}

pub proof fn lemma_smoosh_concat(a: Seq<char>, b: Seq<char>)
    ensures
        smoosh(a + b) == smoosh(a) + smoosh(b),
    decreases a.len(),
{
    if a.len() == 0 {
        assert(a + b =~= b);
        assert(smoosh(a) + smoosh(b) =~= smoosh(b));
    } else {
        lemma_smoosh_concat(a.drop_first(), b);
        assert((a + b).drop_first() =~= a.drop_first() + b);
        assert((a + b)[0] == a[0]);
        assert(morse_code(a[0]) + (smoosh(a.drop_first()) + smoosh(b)) =~= (morse_code(a[0])
            + smoosh(a.drop_first())) + smoosh(b));
    }
}

pub proof fn lemma_smoosh_push(s: Seq<char>, c: char)
    ensures
        smoosh(s.push(c)) == smoosh(s) + morse_code(c),
{
    lemma_smoosh_concat(s, seq![c]);
    assert(s.push(c) =~= s + seq![c]);
    assert(seq![c].drop_first() =~= Seq::<char>::empty());
    assert(seq![c][0] == c);
    assert(smoosh(seq![c]) == morse_code(c) + smoosh(Seq::<char>::empty()));
    assert(morse_code(c) + Seq::<bool>::empty() =~= morse_code(c));
}

pub proof fn lemma_smoosh_remove(s: Seq<char>, j: int)
    requires
        0 <= j < s.len(),
    ensures
        smoosh(s).len() == smoosh(s.remove(j)).len() + morse_code(s[j]).len(),
{
    let pre = s.subrange(0, j);
    let at = seq![s[j]];
    let post = s.subrange(j + 1, s.len() as int);
    assert(s =~= pre + (at + post));
    lemma_smoosh_concat(pre, at + post);
    lemma_smoosh_concat(at, post);
    assert(at.drop_first() =~= Seq::<char>::empty());
    assert(at[0] == s[j]);
    assert(smoosh(at) == morse_code(s[j]) + smoosh(Seq::<char>::empty()));
    assert(s.remove(j) =~= pre + post);
    lemma_smoosh_concat(pre, post);
}

/// The length of a smooshed encoding depends only on which letters occur,
/// not on their order.
pub proof fn lemma_smoosh_len_multiset(s1: Seq<char>, s2: Seq<char>)
    requires
        s1.to_multiset() == s2.to_multiset(),
    ensures
        smoosh(s1).len() == smoosh(s2).len(),
    decreases s1.len(),
{
    broadcast use vstd::seq_lib::group_to_multiset_ensures;
    broadcast use vstd::multiset::group_multiset_axioms;

    if s1.len() == 0 {
        assert(s1.to_multiset().len() == 0);
        assert(s2.len() == 0);
    } else {
        let c = s1[0];
        assert(s1.contains(c));
        assert(s1.to_multiset().count(c) > 0);
        assert(s2.to_multiset().count(c) > 0);
        assert(s2.contains(c));
        let j = choose|j: int| 0 <= j < s2.len() && s2[j] == c;
        assert(s1.remove(0).to_multiset() == s1.to_multiset().remove(c));
        assert(s2.remove(j).to_multiset() == s2.to_multiset().remove(c));
        lemma_smoosh_len_multiset(s1.remove(0), s2.remove(j));
        lemma_smoosh_remove(s1, 0);
        lemma_smoosh_remove(s2, j);
    }
}

fn bits1(a: bool) -> (r: Vec<bool>)
    ensures
        r@ == seq![a],
{
    let mut v: Vec<bool> = Vec::new();
    v.push(a);
    proof {
        assert(v@ =~= seq![a]);
    }
    v
}

fn bits2(a: bool, b: bool) -> (r: Vec<bool>)
    ensures
        r@ == seq![a, b],
{
    let mut v: Vec<bool> = Vec::new();
    v.push(a);
    v.push(b);
    proof {
        assert(v@ =~= seq![a, b]);
    }
    v
}

fn bits3(a: bool, b: bool, c: bool) -> (r: Vec<bool>)
    ensures
        r@ == seq![a, b, c],
{
    let mut v: Vec<bool> = Vec::new();
    v.push(a);
    v.push(b);
    v.push(c);
    proof {
        assert(v@ =~= seq![a, b, c]);
    }
    v
}

fn bits4(a: bool, b: bool, c: bool, d: bool) -> (r: Vec<bool>)
    ensures
        r@ == seq![a, b, c, d],
{
    let mut v: Vec<bool> = Vec::new();
    v.push(a);
    v.push(b);
    v.push(c);
    v.push(d);
    proof {
        assert(v@ =~= seq![a, b, c, d]);
    }
    v
}

/// The pattern of one letter in bit-vector form.
pub fn encode_char(c: char) -> (r: Vec<bool>)
    ensures
        r@ == morse_code(c),
{
    if c == 'a' {
        bits2(false, true)
    } else if c == 'b' {
        bits4(true, false, false, false)
    } else if c == 'c' {
        bits4(true, false, true, false)
    } else if c == 'd' {
        bits3(true, false, false)
    } else if c == 'e' {
        bits1(false)
    } else if c == 'f' {
        bits4(false, false, true, false)
    } else if c == 'g' {
        bits3(true, true, false)
    } else if c == 'h' {
        bits4(false, false, false, false)
    } else if c == 'i' {
        bits2(false, false)
    } else if c == 'j' {
        bits4(false, true, true, true)
    } else if c == 'k' {
        bits3(true, false, true)
    } else if c == 'l' {
        bits4(false, true, false, false)
    } else if c == 'm' {
        bits2(true, true)
    } else if c == 'n' {
        bits2(true, false)
    } else if c == 'o' {
        bits3(true, true, true)
    } else if c == 'p' {
        bits4(false, true, true, false)
    } else if c == 'q' {
        bits4(true, true, false, true)
    } else if c == 'r' {
        bits3(false, true, false)
    } else if c == 's' {
        bits3(false, false, false)
    } else if c == 't' {
        bits1(true)
    } else if c == 'u' {
        bits3(false, false, true)
    } else if c == 'v' {
        bits4(false, false, false, true)
    } else if c == 'w' {
        bits3(false, true, true)
    } else if c == 'x' {
        bits4(true, false, false, true)
    } else if c == 'y' {
        bits4(true, false, true, true)
    } else if c == 'z' {
        bits4(true, true, false, false)
    } else {
        let v: Vec<bool> = Vec::new();
        proof {
            assert(v@ =~= morse_code(c));
        }
        v
    }
}

/// The canonical alphabet as an executable vector.
pub fn alphabet_chars() -> (r: Vec<char>)
    ensures
        r@ == alphabet(),
{
    let mut v: Vec<char> = Vec::new();
    v.push('a');
    v.push('b');
    v.push('c');
    v.push('d');
    v.push('e');
    v.push('f');
    v.push('g');
    v.push('h');
    v.push('i');
    v.push('j');
    v.push('k');
    v.push('l');
    v.push('m');
    v.push('n');
    v.push('o');
    v.push('p');
    v.push('q');
    v.push('r');
    v.push('s');
    v.push('t');
    v.push('u');
    v.push('v');
    v.push('w');
    v.push('x');
    v.push('y');
    v.push('z');
    proof {
        assert(v@ =~= alphabet());
    }
    v
}

pub proof fn lemma_alphabet_well_formed()
    ensures
        alphabet().no_duplicates(),
        forall|k: int| 0 <= k < alphabet().len() ==> is_alphabet_letter(#[trigger] alphabet()[k]),
{
    assert forall|k: int| 0 <= k < alphabet().len() implies is_alphabet_letter(
        #[trigger] alphabet()[k],
    ) by {
        assert(alphabet().len() == 26);
    }
    assert forall|i: int, j: int| 0 <= i < j < alphabet().len() implies alphabet()[i]
        != alphabet()[j] by {
        assert(alphabet().len() == 26);
    }
}

/// The smooshed bit-vector encoding of a sequence of alphabet letters.
pub fn chars_to_smooshedmerse(chars: &[char]) -> (r: Result<Vec<bool>, ValidationError>)
    requires
        forall|k: int| 0 <= k < chars@.len() ==> is_alphabet_letter(#[trigger] chars@[k]),
    ensures
        r matches Ok(v) && v@ == smoosh(chars@),
{
    let mut out: Vec<bool> = Vec::new();
    let mut i: usize = 0;
    while i < chars.len()
        invariant
            i <= chars@.len(),
            forall|k: int| 0 <= k < chars@.len() ==> is_alphabet_letter(#[trigger] chars@[k]),
            out@ == smoosh(chars@.take(i as int)),
        decreases chars@.len() - i,
    {
        let mut bits = encode_char(chars[i]);
        proof {
            lemma_smoosh_push(chars@.take(i as int), chars@[i as int]);
            assert(chars@.take(i as int + 1) =~= chars@.take(i as int).push(chars@[i as int]));
        }
        out.append(&mut bits);
        i = i + 1;
    }
    proof {
        assert(chars@.take(chars@.len() as int) =~= chars@);
    }
    Ok(out)
}

/// Checks that every character of the input is a dot or a dash.
pub fn validate_morse_str(s: &str) -> (r: Result<(), ValidationError>)
    ensures
        r is Ok <==> (forall|k: int|
            0 <= k < s@.len() ==> is_morse_symbol(#[trigger] s@[k])),
        r is Err ==> r == Err::<(), ValidationError>(ValidationError::InvalidCharacter),
{
    let n = s.unicode_len();
    let mut i: usize = 0;
    while i < n
        invariant
            n == s@.len(),
            i <= n,
            forall|k: int| 0 <= k < i ==> is_morse_symbol(#[trigger] s@[k]),
        decreases n - i,
    {
        let c = s.get_char(i);
        if !(c == '.' || c == '-') {
            return Err(ValidationError::InvalidCharacter);
        }
        i = i + 1;
    }
    Ok(())
}

/// The bit-vector form of a textual Morse string.
pub fn smooshedmorse_to_merse(s: &str) -> (r: Result<Vec<bool>, ValidationError>)
    ensures
        r is Ok <==> (forall|k: int|
            0 <= k < s@.len() ==> is_morse_symbol(#[trigger] s@[k])),
        r matches Ok(v) ==> v@ == merse_of(s@),
        r is Err ==> r == Err::<Vec<bool>, ValidationError>(ValidationError::InvalidCharacter),
{
    let n = s.unicode_len();
    let mut out: Vec<bool> = Vec::new();
    let mut i: usize = 0;
    while i < n
        invariant
            n == s@.len(),
            i <= n,
            forall|k: int| 0 <= k < i ==> is_morse_symbol(#[trigger] s@[k]),
            out@ == merse_of(s@).take(i as int),
        decreases n - i,
    {
        let c = s.get_char(i);
        if !(c == '.' || c == '-') {
            return Err(ValidationError::InvalidCharacter);
        }
        out.push(c == '-');
        proof {
            assert(merse_of(s@).take(i as int + 1) =~= merse_of(s@).take(i as int).push(
                s@[i as int] == '-',
            ));
        }
        i = i + 1;
    }
    proof {
        assert(merse_of(s@).take(s@.len() as int) =~= merse_of(s@));
    }
    Ok(out)
}

/// Relies on `String::push`: appends the given character to the end of
/// the string.
pub assume_specification[ String::push ](s: &mut String, ch: char)
    ensures
        final(s)@ == old(s)@.push(ch),
;

/// A string holding exactly the given characters.
pub fn chars_to_string(chars: &[char]) -> (r: String)
    ensures
        r@ == chars@,
{
    let mut r = String::new();
    let mut i: usize = 0;
    while i < chars.len()
        invariant
            i <= chars@.len(),
            r@ == chars@.take(i as int),
        decreases chars@.len() - i,
    {
        r.push(chars[i]);
        proof {
            assert(chars@.take(i as int + 1) =~= chars@.take(i as int).push(chars@[i as int]));
        }
        i = i + 1;
    }
    proof {
        assert(chars@.take(chars@.len() as int) =~= chars@);
    }
    r
}

} // verus!
