//! Paths of the form `name?key=value&key=value`, read from bytes.

use vstd::prelude::*;

verus! {

/// The place of the first `sep` in `bytes`, or the length of `bytes` where
/// there is none.
pub open spec fn first_at(bytes: Seq<u8>, sep: u8) -> nat
    decreases bytes.len(),
{
    if bytes.len() == 0 || bytes[0] == sep {
        0
    } else {
        1 + first_at(bytes.skip(1), sep)
    }
}

/// The pieces of `bytes` between the occurrences of `sep`: one more piece
/// than there are separators, each piece free of `sep`.
pub open spec fn fields(bytes: Seq<u8>, sep: u8) -> Seq<Seq<u8>>
    decreases bytes.len(),
{
    let at = first_at(bytes, sep);
    if at >= bytes.len() {
        seq![bytes]
    } else {
        seq![bytes.take(at as int)] + fields(bytes.skip(at as int + 1), sep)
    }
}

/// The contents of each vector of `pieces`.
pub open spec fn texts(pieces: Seq<Vec<u8>>) -> Seq<Seq<u8>> {
    Seq::new(pieces.len(), |i: int| pieces[i]@)
}

/// The first separator stands where none stands before and one stands at.
pub proof fn lemma_first_at(bytes: Seq<u8>, sep: u8, place: int)
    requires
        0 <= place <= bytes.len(),
        forall|j: int| 0 <= j < place ==> bytes[j] != sep,
        place == bytes.len() || bytes[place] == sep,
    ensures
        first_at(bytes, sep) == place,
    decreases place,
{
    if place > 0 {
        let rest = bytes.skip(1);
        assert forall|j: int| 0 <= j < place - 1 implies rest[j] != sep by {
            assert(rest[j] == bytes[j + 1]);
        }
        lemma_first_at(rest, sep, place - 1);
    }
}

/// Cuts `bytes` at each `sep`.
pub fn split(bytes: &[u8], sep: u8) -> (pieces: Vec<Vec<u8>>)
    ensures
        texts(pieces@) == fields(bytes@, sep),
{
    let mut pieces: Vec<Vec<u8>> = Vec::new();
    let mut piece: Vec<u8> = Vec::new();
    let mut start: usize = 0;
    let mut i: usize = 0;
    assert(bytes@.skip(0) =~= bytes@);
    assert(texts(pieces@) + fields(bytes@.skip(0), sep) =~= fields(bytes@, sep));
    while i < bytes.len()
        invariant
            start <= i <= bytes@.len(),
            piece@ == bytes@.subrange(start as int, i as int),
            forall|j: int| start <= j < i ==> bytes@[j] != sep,
            fields(bytes@, sep) == texts(pieces@) + fields(bytes@.skip(start as int), sep),
        decreases bytes@.len() - i,
    {
        let ghost tail = bytes@.skip(start as int);
        if bytes[i] == sep {
            proof {
                lemma_first_at(tail, sep, i - start);
                assert(tail.take(i - start) =~= piece@);
                assert(tail.skip(i - start + 1) =~= bytes@.skip(i + 1));
            }
            let ghost before = texts(pieces@);
            pieces.push(piece);
            assert(texts(pieces@) =~= before + seq![tail.take(i - start)]);
            piece = Vec::new();
            start = i + 1;
            assert(piece@ =~= bytes@.subrange(start as int, i + 1));
        } else {
            piece.push(bytes[i]);
            assert(piece@ =~= bytes@.subrange(start as int, i + 1));
        }
        i += 1;
    }
    proof {
        let tail = bytes@.skip(start as int);
        lemma_first_at(tail, sep, tail.len() as int);
        assert(piece@ =~= tail);
    }
    let ghost before = texts(pieces@);
    pieces.push(piece);
    assert(texts(pieces@) =~= before + seq![bytes@.skip(start as int)]);
    pieces
}

/// Whether two byte strings are the same.
pub fn same_bytes(a: &[u8], b: &[u8]) -> (same: bool)
    ensures
        same == (a@ == b@),
{
    if a.len() != b.len() {
        return false;
    }
    let mut i: usize = 0;
    while i < a.len()
        invariant
            i <= a@.len(),
            a@.len() == b@.len(),
            forall|j: int| 0 <= j < i ==> a@[j] == b@[j],
        decreases a@.len() - i,
    {
        if a[i] != b[i] {
            return false;
        }
        i += 1;
    }
    assert(a@ =~= b@);
    true
}

/// The digit `0`.
pub const ZERO: u8 = 0x30;

/// The digit `9`.
pub const NINE: u8 = 0x39;

/// The sign `+`.
pub const PLUS: u8 = 0x2b;

/// Whether `byte` is one of the ten decimal digits.
pub open spec fn is_digit(byte: u8) -> bool {
    ZERO <= byte <= NINE
}

/// Whether `text` holds decimal digits only.
pub open spec fn all_digits(text: Seq<u8>) -> bool {
    forall|i: int| 0 <= i < text.len() ==> is_digit(#[trigger] text[i])
}

/// The number that the decimal digits of `digits` write.
pub open spec fn digits_value(digits: Seq<u8>) -> nat
    decreases digits.len(),
{
    if digits.len() == 0 {
        0
    } else {
        digits_value(digits.drop_last()) * 10 + (digits.last() - ZERO) as nat
    }
}

/// `text` without the plus sign that may lead it.
pub open spec fn unsigned_part(text: Seq<u8>) -> Seq<u8> {
    if text.len() > 0 && text[0] == PLUS {
        text.skip(1)
    } else {
        text
    }
}

/// The count that `text` writes: one or more decimal digits, a plus sign
/// before them or none, whose number fits a `usize`.
pub open spec fn parsed_count(text: Seq<u8>) -> Option<usize> {
    let digits = unsigned_part(text);
    if digits.len() > 0 && all_digits(digits) && digits_value(digits) <= usize::MAX {
        Some(digits_value(digits) as usize)
    } else {
        None
    }
}

/// More digits never write a smaller number.
pub proof fn lemma_digits_value_grows(digits: Seq<u8>, shorter: int)
    requires
        all_digits(digits),
        0 <= shorter <= digits.len(),
    ensures
        digits_value(digits.take(shorter)) <= digits_value(digits),
    decreases digits.len() - shorter,
{
    if shorter < digits.len() {
        let longer = digits.take(shorter + 1);
        assert(longer.drop_last() =~= digits.take(shorter));
        assert(is_digit(digits[shorter]));
        lemma_digits_value_grows(digits, shorter + 1);
    } else {
        assert(digits.take(shorter) =~= digits);
    }
}

/// Reads a count of samples from its decimal text.
pub fn parse_count(text: &[u8]) -> (count: Option<usize>)
    ensures
        count == parsed_count(text@),
{
    let start: usize = if text.len() > 0 && text[0] == PLUS {
        1
    } else {
        0
    };
    let ghost digits = unsigned_part(text@);
    assert(digits =~= text@.skip(start as int));
    if start == text.len() {
        return None;
    }
    let mut value: usize = 0;
    let mut i: usize = start;
    assert(digits.take(0) =~= Seq::<u8>::empty());
    while i < text.len()
        invariant
            start <= i <= text@.len(),
            digits == text@.skip(start as int),
            digits == unsigned_part(text@),
            all_digits(digits.take(i - start)),
            value == digits_value(digits.take(i - start)),
        decreases text@.len() - i,
    {
        let byte = text[i];
        assert(byte == digits[i - start]);
        if byte < ZERO || byte > NINE {
            assert(!is_digit(digits[i - start]));
            return None;
        }
        let ghost longer = digits.take(i - start + 1);
        proof {
            assert(longer.drop_last() =~= digits.take(i - start));
            assert(all_digits(longer)) by {
                assert forall|j: int| 0 <= j < longer.len() implies is_digit(
                    #[trigger] longer[j],
                ) by {
                    if j < i - start {
                        assert(longer[j] == digits.take(i - start)[j]);
                    }
                }
            }
            if all_digits(digits) {
                lemma_digits_value_grows(digits, i - start + 1);
            }
        }
        let tenfold = match value.checked_mul(10) {
            Some(tenfold) => tenfold,
            None => {
                return None;
            },
        };
        value = match tenfold.checked_add((byte - ZERO) as usize) {
            Some(sum) => sum,
            None => {
                return None;
            },
        };
        i += 1;
    }
    assert(digits.take(i - start) =~= digits);
    Some(value)
}

/// The mark `?` that ends the name of a path.
pub const QUERY: u8 = 0x3f;

/// The mark `&` between the pairs of a query.
pub const AMPERSAND: u8 = 0x26;

/// The mark `=` between a key and its value.
pub const EQUALS: u8 = 0x3d;

/// One `key=value` pair of a query.
#[derive(Debug)]
pub struct Arg {
    pub key: Vec<u8>,
    pub value: Vec<u8>,
}

impl View for Arg {
    type V = (Seq<u8>, Seq<u8>);

    open spec fn view(&self) -> (Seq<u8>, Seq<u8>) {
        (self.key@, self.value@)
    }
}

/// A path taken apart: the name, and the pairs of the query in their order.
#[derive(Debug)]
pub struct OpenPath {
    pub name: Vec<u8>,
    pub args: Vec<Arg>,
}

/// What an `OpenPath` holds.
pub struct PathView {
    pub name: Seq<u8>,
    pub args: Seq<(Seq<u8>, Seq<u8>)>,
}

/// The pair that each argument of `args` holds.
pub open spec fn pairs(args: Seq<Arg>) -> Seq<(Seq<u8>, Seq<u8>)> {
    Seq::new(args.len(), |i: int| args[i]@)
}

impl View for OpenPath {
    type V = PathView;

    open spec fn view(&self) -> PathView {
        PathView { name: self.name@, args: pairs(self.args@) }
    }
}

/// The pair that `piece` writes: the key before the first `=`, and the
/// value from there to the next `=` or to the end. Without a `=` there is none.
pub open spec fn pair_of(piece: Seq<u8>) -> Option<(Seq<u8>, Seq<u8>)> {
    let parts = fields(piece, EQUALS);
    if parts.len() >= 2 {
        Some((parts[0], parts[1]))
    } else {
        None
    }
}

/// Whether no key stands twice in `args`.
pub open spec fn distinct_keys(args: Seq<(Seq<u8>, Seq<u8>)>) -> bool {
    forall|i: int, j: int| 0 <= i < j < args.len() ==> args[i].0 != args[j].0
}

/// The pairs that the query `text` writes, `&` between them: each piece
/// must write a pair, and no key may come twice.
pub open spec fn query_of(text: Seq<u8>) -> Option<Seq<(Seq<u8>, Seq<u8>)>> {
    let pieces = fields(text, AMPERSAND);
    let args = Seq::new(pieces.len(), |i: int| pair_of(pieces[i]).unwrap());
    if (forall|i: int| 0 <= i < pieces.len() ==> pair_of(#[trigger] pieces[i]).is_some())
        && distinct_keys(args) {
        Some(args)
    } else {
        None
    }
}

/// What the path `path` writes: a name, then nothing more, or `?` and a
/// query. What follows a second `?` is not read. A path that is not UTF-8,
/// or whose query is refused, writes nothing.
pub open spec fn path_of(path: Seq<u8>) -> Option<PathView> {
    let parts = fields(path, QUERY);
    if !vstd::utf8::valid_utf8(path) {
        None
    } else if parts.len() == 1 {
        Some(PathView { name: parts[0], args: Seq::empty() })
    } else {
        match query_of(parts[1]) {
            Some(args) => Some(PathView { name: parts[0], args }),
            None => None,
        }
    }
}

/// The value of the first pair of `args` under `key`.
pub open spec fn value_of(args: Seq<(Seq<u8>, Seq<u8>)>, key: Seq<u8>) -> Option<Seq<u8>>
    decreases args.len(),
{
    if args.len() == 0 {
        None
    } else if args[0].0 == key {
        Some(args[0].1)
    } else {
        value_of(args.skip(1), key)
    }
}

/// Cutting always leaves a piece.
pub proof fn lemma_fields_nonempty(bytes: Seq<u8>, sep: u8)
    ensures
        fields(bytes, sep).len() >= 1,
{
}

/// Whether `bytes` are well-formed UTF-8.
///
/// Calls `core::str::from_utf8`, which accepts a slice exactly when it is
/// valid UTF-8, and keeps only whether it did.
#[verifier::external_body]
fn is_utf8(bytes: &[u8]) -> (valid: bool)
    ensures
        valid == vstd::utf8::valid_utf8(bytes@),
{
    core::str::from_utf8(bytes).is_ok()
}

/// Reads one `key=value` pair.
pub fn parse_pair(piece: &[u8]) -> (arg: Option<Arg>)
    ensures
        arg.is_some() == pair_of(piece@).is_some(),
        arg.is_some() ==> arg.unwrap()@ == pair_of(piece@).unwrap(),
{
    let mut parts = split(piece, EQUALS);
    assert(texts(parts@).len() == parts@.len());
    if parts.len() < 2 {
        return None;
    }
    assert(texts(parts@)[0] == parts@[0]@);
    assert(texts(parts@)[1] == parts@[1]@);
    let key = parts.remove(0);
    let value = parts.remove(0);
    Some(Arg { key, value })
}

/// Whether a pair of `args` has the key `key`.
pub fn has_key(args: &Vec<Arg>, key: &[u8]) -> (found: bool)
    ensures
        found == exists|i: int| 0 <= i < args@.len() && pairs(args@)[i].0 == key@,
{
    let mut i: usize = 0;
    while i < args.len()
        invariant
            i <= args@.len(),
            forall|j: int| 0 <= j < i ==> pairs(args@)[j].0 != key@,
        decreases args@.len() - i,
    {
        if same_bytes(args[i].key.as_slice(), key) {
            assert(pairs(args@)[i as int].0 == key@);
            return true;
        }
        i += 1;
    }
    false
}

/// Reads a query: the pairs between the `&`.
pub fn parse_query(text: &[u8]) -> (args: Option<Vec<Arg>>)
    ensures
        args.is_some() == query_of(text@).is_some(),
        args.is_some() ==> pairs(args.unwrap()@) == query_of(text@).unwrap(),
{
    let pieces = split(text, AMPERSAND);
    let ghost cut = fields(text@, AMPERSAND);
    let ghost whole = Seq::new(cut.len(), |i: int| pair_of(cut[i]).unwrap());
    assert(texts(pieces@).len() == pieces@.len());
    let mut args: Vec<Arg> = Vec::new();
    let mut i: usize = 0;
    while i < pieces.len()
        invariant
            i <= pieces@.len(),
            texts(pieces@) == cut,
            cut == fields(text@, AMPERSAND),
            whole == Seq::new(cut.len(), |i: int| pair_of(cut[i]).unwrap()),
            args@.len() == i,
            forall|j: int| 0 <= j < i ==> pair_of(#[trigger] cut[j]).is_some(),
            pairs(args@) == whole.take(i as int),
            distinct_keys(whole.take(i as int)),
        decreases pieces@.len() - i,
    {
        assert(cut[i as int] == pieces@[i as int]@);
        let arg = match parse_pair(pieces[i].as_slice()) {
            Some(arg) => arg,
            None => {
                return None;
            },
        };
        assert(arg@ == whole[i as int]);
        if has_key(&args, arg.key.as_slice()) {
            proof {
                let k = choose|k: int| 0 <= k < args@.len() && pairs(args@)[k].0 == arg.key@;
                assert(whole.take(i as int)[k] == whole[k]);
                assert(whole[k].0 == whole[i as int].0);
            }
            return None;
        }
        proof {
            let longer = whole.take(i + 1);
            assert forall|a: int, b: int| 0 <= a < b < longer.len() implies longer[a].0
                != longer[b].0 by {
                if b < i {
                    assert(whole.take(i as int)[a] == whole[a]);
                    assert(whole.take(i as int)[b] == whole[b]);
                } else {
                    assert(pairs(args@)[a].0 != arg.key@);
                    assert(whole.take(i as int)[a] == whole[a]);
                }
            }
        }
        args.push(arg);
        i += 1;
        assert(pairs(args@) =~= whole.take(i as int));
    }
    assert(whole.take(i as int) =~= whole);
    Some(args)
}

/// Reads a path: the name, and the pairs of the query where there is one.
pub fn parse_path(path: &[u8]) -> (parsed: Option<OpenPath>)
    ensures
        parsed.is_some() == path_of(path@).is_some(),
        parsed.is_some() ==> parsed.unwrap()@ == path_of(path@).unwrap(),
{
    if !is_utf8(path) {
        return None;
    }
    let mut parts = split(path, QUERY);
    assert(texts(parts@).len() == parts@.len());
    assert(texts(parts@)[0] == parts@[0]@);
    if parts.len() == 1 {
        let name = parts.remove(0);
        let parsed = OpenPath { name, args: Vec::new() };
        assert(parsed@.args =~= Seq::empty());
        return Some(parsed);
    }
    assert(texts(parts@)[1] == parts@[1]@);
    let name = parts.remove(0);
    let text = parts.remove(0);
    match parse_query(text.as_slice()) {
        Some(args) => Some(OpenPath { name, args }),
        None => None,
    }
}

/// Looks up the value that a query gives under `key`.
pub fn find_value<'a>(args: &'a Vec<Arg>, key: &[u8]) -> (value: Option<&'a Vec<u8>>)
    ensures
        value.is_some() == value_of(pairs(args@), key@).is_some(),
        value.is_some() ==> value.unwrap()@ == value_of(pairs(args@), key@).unwrap(),
{
    let mut i: usize = 0;
    assert(pairs(args@).skip(0) =~= pairs(args@));
    while i < args.len()
        invariant
            i <= args@.len(),
            value_of(pairs(args@), key@) == value_of(pairs(args@).skip(i as int), key@),
        decreases args@.len() - i,
    {
        let ghost rest = pairs(args@).skip(i as int);
        assert(rest[0] == args@[i as int]@);
        if same_bytes(args[i].key.as_slice(), key) {
            return Some(&args[i].value);
        }
        assert(rest.skip(1) =~= pairs(args@).skip(i + 1));
        i += 1;
    }
    None
}

} // verus!
