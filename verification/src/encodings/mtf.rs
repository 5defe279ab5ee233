use vstd::prelude::*;

verus! {

/// The alphabet before anything was coded: every byte at its own value.
pub open spec fn initial_alphabet() -> Seq<u8> {
    Seq::new(256, |i: int| i as u8)
}

/// Whether `a` lists every byte exactly once.
pub open spec fn is_alphabet(a: Seq<u8>) -> bool {
    &&& a.len() == 256
    &&& a.no_duplicates()
    &&& forall|b: u8| a.contains(b)
}

/// `a` with the entry at `i` moved to the front.
pub open spec fn move_to_front(a: Seq<u8>, i: int) -> Seq<u8> {
    a.remove(i).insert(0, a[i])
}

/// The ranks of the bytes of `input`, each in the alphabet as the bytes before
/// it left it, starting from alphabet `a`.
pub open spec fn forward_from(a: Seq<u8>, input: Seq<u8>) -> Seq<u8>
    decreases input.len(),
{
    if input.len() == 0 {
        Seq::<u8>::empty()
    } else {
        let i = a.index_of(input[0]);
        seq![i as u8] + forward_from(move_to_front(a, i), input.skip(1))
    }
}

/// The bytes whose ranks are `input`, starting from alphabet `a`.
pub open spec fn inverse_from(a: Seq<u8>, input: Seq<u8>) -> Seq<u8>
    decreases input.len(),
{
    if input.len() == 0 {
        Seq::<u8>::empty()
    } else {
        let i = input[0] as int;
        seq![a[i]] + inverse_from(move_to_front(a, i), input.skip(1))
    }
}

/// The move-to-front transform of `input`.
pub open spec fn mtf_forward(input: Seq<u8>) -> Seq<u8> {
    forward_from(initial_alphabet(), input)
}

/// The inverse move-to-front transform of `input`.
pub open spec fn mtf_inverse(input: Seq<u8>) -> Seq<u8> {
    inverse_from(initial_alphabet(), input)
}

/// The initial alphabet lists every byte exactly once.
pub proof fn lemma_initial_alphabet()
    ensures
        is_alphabet(initial_alphabet()),
{
    let a = initial_alphabet();
    assert forall|b: u8| a.contains(b) by {
        assert(a[b as int] == b);
    }
}

/// Moving an entry to the front keeps an alphabet an alphabet.
pub proof fn lemma_move_to_front(a: Seq<u8>, i: int)
    requires
        is_alphabet(a),
        0 <= i < 256,
    ensures
        is_alphabet(move_to_front(a, i)),
        move_to_front(a, i)[0] == a[i],
{
    let m = move_to_front(a, i);
    let r = a.remove(i);
    assert forall|b: u8| m.contains(b) by {
        let j = a.index_of(b);
        assert(a.contains(b));
        if j == i {
            assert(m[0] == b);
        } else if j < i {
            assert(m[j + 1] == b);
        } else {
            assert(m[j] == b);
        }
    }
    assert forall|x: int, y: int| 0 <= x < m.len() && 0 <= y < m.len() && x != y implies m[x]
        != m[y] by {
        let px = if x == 0 {
            i
        } else if x - 1 < i {
            x - 1
        } else {
            x
        };
        let py = if y == 0 {
            i
        } else if y - 1 < i {
            y - 1
        } else {
            y
        };
        assert(m[x] == a[px]);
        assert(m[y] == a[py]);
        assert(px != py);
    }
}

/// In an alphabet, a byte stands at one place only.
pub proof fn lemma_alphabet_index(a: Seq<u8>, i: int)
    requires
        is_alphabet(a),
        0 <= i < 256,
    ensures
        a.index_of(a[i]) == i,
{
    assert(a.contains(a[i]));
}

/// Undoing the transform gives back the input, from any alphabet.
pub proof fn lemma_roundtrip_from(a: Seq<u8>, input: Seq<u8>)
    requires
        is_alphabet(a),
    ensures
        inverse_from(a, forward_from(a, input)) == input,
        forward_from(a, input).len() == input.len(),
    decreases input.len(),
{
    if input.len() == 0 {
        assert(input =~= Seq::<u8>::empty());
    } else {
        assert(a.contains(input[0]));
        let i = a.index_of(input[0]);
        let a2 = move_to_front(a, i);
        lemma_move_to_front(a, i);
        lemma_roundtrip_from(a2, input.skip(1));
        let coded = forward_from(a, input);
        let tail = forward_from(a2, input.skip(1));
        assert(coded == seq![i as u8] + tail);
        assert(coded.skip(1) =~= tail);
        assert(coded[0] as int == i);
        assert(seq![input[0]] + input.skip(1) =~= input);
    }
}

/// Transforming what the inverse gave leads back to the ranks, from any alphabet.
pub proof fn lemma_roundtrip_back_from(a: Seq<u8>, input: Seq<u8>)
    requires
        is_alphabet(a),
    ensures
        forward_from(a, inverse_from(a, input)) == input,
    decreases input.len(),
{
    if input.len() == 0 {
        assert(input =~= Seq::<u8>::empty());
    } else {
        let i = input[0] as int;
        let a2 = move_to_front(a, i);
        lemma_move_to_front(a, i);
        lemma_alphabet_index(a, i);
        lemma_roundtrip_back_from(a2, input.skip(1));
        let bytes = inverse_from(a, input);
        let tail = inverse_from(a2, input.skip(1));
        assert(bytes == seq![a[i]] + tail);
        assert(bytes.skip(1) =~= tail);
        assert(seq![input[0]] + input.skip(1) =~= input);
    }
}

/// The inverse transform undoes the transform, for every input.
pub proof fn theorem_mtf_roundtrip(input: Seq<u8>)
    ensures
        mtf_inverse(mtf_forward(input)) == input,
        mtf_forward(input).len() == input.len(),
{
    lemma_initial_alphabet();
    lemma_roundtrip_from(initial_alphabet(), input);
}

/// The alphabet that coding starts with, as a vector.
fn fresh_alphabet() -> (alphabet: Vec<u8>)
    ensures
        alphabet@ == initial_alphabet(),
{
    let mut alphabet: Vec<u8> = Vec::with_capacity(256);
    let mut b: usize = 0;
    while b < 256
        invariant
            b <= 256,
            alphabet@ == Seq::new(b as nat, |i: int| i as u8),
        decreases 256 - b,
    {
        alphabet.push(b as u8);
        b = b + 1;
        assert(alphabet@ =~= Seq::new(b as nat, |i: int| i as u8));
    }
    alphabet
}

/// Replaces every byte of `data` by its rank in the alphabet and moves it to
/// the front of the alphabet.
pub fn apply(data: &[u8]) -> (out: Vec<u8>)
    ensures
        out@ == mtf_forward(data@),
{
    // Create alphabet vector
    let mut alphabet: Vec<u8> = fresh_alphabet();
    let mut out: Vec<u8> = Vec::with_capacity(data.len());
    proof {
        lemma_initial_alphabet();
        assert(data@.skip(0) =~= data@);
        assert(out@ + mtf_forward(data@) =~= mtf_forward(data@));
    }

    // Iterates over data and encodes each byte with the current alphabet
    let mut i: usize = 0;
    while i < data.len()
        invariant
            i <= data@.len(),
            is_alphabet(alphabet@),
            out@ + forward_from(alphabet@, data@.skip(i as int)) == mtf_forward(data@),
        decreases data@.len() - i,
    {
        let ghost before = alphabet@;
        let ghost done = out@;
        let rank: u8 = encode(data[i], &mut alphabet);
        out.push(rank);
        proof {
            let rest = data@.skip(i as int);
            assert(rest[0] == data@[i as int]);
            assert(rest.skip(1) =~= data@.skip(i + 1));
            let tail = forward_from(alphabet@, data@.skip(i + 1));
            assert(done + (seq![rank] + tail) =~= out@ + tail);
        }
        i = i + 1;
    }
    proof {
        assert(out@ + Seq::<u8>::empty() =~= out@);
    }
    out
}

/// Replaces every rank of `data` by the byte that has it in the alphabet and
/// moves that byte to the front of the alphabet.
pub fn reduce(data: &[u8]) -> (decoded: Vec<u8>)
    ensures
        decoded@ == mtf_inverse(data@),
{
    // Create alphabet vector
    let mut alphabet: Vec<u8> = fresh_alphabet();

    let mut decoded: Vec<u8> = Vec::with_capacity(data.len());
    proof {
        lemma_initial_alphabet();
        assert(data@.skip(0) =~= data@);
        assert(decoded@ + mtf_inverse(data@) =~= mtf_inverse(data@));
    }
    let mut i: usize = 0;
    while i < data.len()
        invariant
            i <= data@.len(),
            is_alphabet(alphabet@),
            decoded@ + inverse_from(alphabet@, data@.skip(i as int)) == mtf_inverse(data@),
        decreases data@.len() - i,
    {
        let ghost before = alphabet@;
        let ghost done = decoded@;
        let index: usize = data[i] as usize;
        let byte: u8 = alphabet.remove(index);
        decoded.push(byte);
        alphabet.insert(0, byte);
        proof {
            lemma_move_to_front(before, index as int);
            let rest = data@.skip(i as int);
            assert(rest[0] == data@[i as int]);
            assert(rest.skip(1) =~= data@.skip(i + 1));
            let tail = inverse_from(alphabet@, data@.skip(i + 1));
            assert(done + (seq![byte] + tail) =~= decoded@ + tail);
        }
        i = i + 1;
    }
    proof {
        assert(decoded@ + Seq::<u8>::empty() =~= decoded@);
    }
    decoded
}

/// The rank of `byte` in `alphabet`; the byte is moved to the front.
///
/// The alphabet lists every byte exactly once before and after.
pub fn encode(byte: u8, alphabet: &mut Vec<u8>) -> (rank: u8)
    requires
        is_alphabet(old(alphabet)@),
    ensures
        rank as int == old(alphabet)@.index_of(byte),
        final(alphabet)@ == move_to_front(old(alphabet)@, rank as int),
        is_alphabet(final(alphabet)@),
{
    let mut index: usize = 0;
    proof {
        assert(alphabet@.contains(byte));
    }
    while alphabet[index] != byte
        invariant
            alphabet@ == old(alphabet)@,
            is_alphabet(alphabet@),
            0 <= index < 256,
            forall|j: int| 0 <= j < index ==> alphabet@[j] != byte,
        decreases 256 - index,
    {
        proof {
            let at = alphabet@.index_of(byte);
            assert(alphabet@.contains(byte));
            assert(alphabet@[at] == byte);
            assert(at > index);
        }
        index = index + 1;
    }
    proof {
        lemma_alphabet_index(alphabet@, index as int);
        lemma_move_to_front(alphabet@, index as int);
    }
    let byte: u8 = alphabet.remove(index);
    alphabet.insert(0, byte);
    index as u8
}

} // verus!
