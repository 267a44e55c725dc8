//! The rolling 64-bit hash from which signatures of draw commands are built.

use vstd::prelude::*;

verus! {

/// The hash before anything was mixed in.
pub const HASH_SEED: u64 = 0xcbf29ce484222325;

/// The odd factor by which each step multiplies.
pub const HASH_FACTOR: u64 = 0x100000001b3;

/// One step of the hash: exclusive or with the value, then a product modulo 2^64.
pub open spec fn mixed(hash: u64, value: u64) -> u64 {
    (hash ^ value).wrapping_mul(HASH_FACTOR)
}

/// The hash after the first `n` of `words`, in order.
pub open spec fn mixed_words(hash: u64, words: Seq<u32>, n: int) -> u64
    decreases n,
{
    if n <= 0 {
        hash
    } else {
        mixed(mixed_words(hash, words, n - 1), words[n - 1] as u64)
    }
}

/// The signature of a command with the given tag, matrix and color transform, each taken as the
/// bits of its numbers.
pub open spec fn signature_of(tag: u64, matrix: Seq<u32>, color: Seq<u32>) -> u64 {
    mixed_words(
        mixed_words(mixed(HASH_SEED, tag), matrix, matrix.len() as int),
        color,
        color.len() as int,
    )
}

/// Mixes a value into a hash.
pub fn mix(hash: &mut u64, value: u64)
    ensures
        *final(hash) == mixed(*old(hash), value),
{
    *hash = *hash ^ value;
    *hash = hash.wrapping_mul(HASH_FACTOR);
}

/// The signature of a command: its tag, the six numbers of its matrix and the eight of its color
/// transform.
pub fn command_signature(tag: u64, matrix: &[u32; 6], color: &[u32; 8]) -> (hash: u64)
    ensures
        hash == signature_of(tag, matrix@, color@),
{
    let mut hash: u64 = HASH_SEED;
    mix(&mut hash, tag);
    let ghost tagged = hash;
    for i in 0..6usize
        invariant
            hash == mixed_words(tagged, matrix@, i as int),
    {
        mix(&mut hash, matrix[i] as u64);
    }
    let ghost placed = hash;
    for i in 0..8usize
        invariant
            hash == mixed_words(placed, color@, i as int),
    {
        mix(&mut hash, color[i] as u64);
    }
    hash
}

/// The inverse of the factor: their product is 1 modulo 2^64.
spec fn factor_inverse() -> int {
    0xce965057aff6957b
}

proof fn lemma_product_recovers(value: u64)
    ensures
        value.wrapping_mul(HASH_FACTOR) as int * factor_inverse() % 0x1_0000_0000_0000_0000 == value,
{
    let modulus: int = 0x1_0000_0000_0000_0000;
    let product = value * HASH_FACTOR;
    vstd::arithmetic::div_mod::lemma_mul_mod_noop_left(product, factor_inverse(), modulus);
    let unit = HASH_FACTOR * factor_inverse();
    assert(unit % modulus == 1) by {
        assert(0x100000001b3int * 0xce965057aff6957bint % 0x1_0000_0000_0000_0000int == 1);
    }
    assert(product * factor_inverse() == value * unit) by (nonlinear_arith)
        requires
            product == value * HASH_FACTOR,
            unit == HASH_FACTOR * factor_inverse(),
    ;
    vstd::arithmetic::div_mod::lemma_mul_mod_noop_right(value as int, unit, modulus);
}

/// A step of the hash loses nothing: from equal results, equal hashes mean equal values, and
/// equal values mean equal hashes.
pub proof fn mixing_is_injective(hash: u64, value: u64, other_hash: u64, other_value: u64)
    requires
        mixed(hash, value) == mixed(other_hash, other_value),
    ensures
        hash == other_hash <==> value == other_value,
{
    let a = hash ^ value;
    let b = other_hash ^ other_value;
    lemma_product_recovers(a);
    lemma_product_recovers(b);
    assert(a == b);
    assert(hash ^ value == other_hash ^ other_value ==> (hash == other_hash <==> value
        == other_value)) by (bit_vector);
}

proof fn lemma_changed_word(hash: u64, other_hash: u64, a: Seq<u32>, b: Seq<u32>, k: int, n: int)
    requires
        a.len() == b.len(),
        n <= a.len(),
        forall|i: int| 0 <= i < a.len() && i != k ==> a[i] == b[i],
        0 <= k < n ==> hash == other_hash && a[k] != b[k],
        !(0 <= k < n) ==> hash != other_hash,
    ensures
        mixed_words(hash, a, n) != mixed_words(other_hash, b, n),
    decreases n,
{
    if n > 0 {
        let rest = mixed_words(hash, a, n - 1);
        let other_rest = mixed_words(other_hash, b, n - 1);
        if k == n - 1 {
            lemma_equal_words(hash, a, b, n - 1);
        } else {
            lemma_changed_word(hash, other_hash, a, b, k, n - 1);
        }
        if mixed(rest, a[n - 1] as u64) == mixed(other_rest, b[n - 1] as u64) {
            mixing_is_injective(rest, a[n - 1] as u64, other_rest, b[n - 1] as u64);
        }
    }
}

proof fn lemma_equal_words(hash: u64, a: Seq<u32>, b: Seq<u32>, n: int)
    requires
        n <= a.len(),
        a.len() == b.len(),
        forall|i: int| 0 <= i < n ==> a[i] == b[i],
    ensures
        mixed_words(hash, a, n) == mixed_words(hash, b, n),
    decreases n,
{
    if n > 0 {
        lemma_equal_words(hash, a, b, n - 1);
    }
}

/// A command that changes one of the numbers of its matrix changes its signature.
pub proof fn changed_matrix_changes_signature(
    tag: u64,
    a: Seq<u32>,
    b: Seq<u32>,
    color: Seq<u32>,
    k: int,
)
    requires
        a.len() == b.len(),
        0 <= k < a.len(),
        a[k] != b[k],
        forall|i: int| 0 <= i < a.len() && i != k ==> a[i] == b[i],
    ensures
        signature_of(tag, a, color) != signature_of(tag, b, color),
{
    let tagged = mixed(HASH_SEED, tag);
    let count = a.len() as int;
    lemma_changed_word(tagged, tagged, a, b, k, count);
    lemma_changed_word(
        mixed_words(tagged, a, count),
        mixed_words(tagged, b, count),
        color,
        color,
        -1,
        color.len() as int,
    );
}

/// A command that changes one of the numbers of its color transform changes its signature.
pub proof fn changed_color_changes_signature(
    tag: u64,
    matrix: Seq<u32>,
    a: Seq<u32>,
    b: Seq<u32>,
    k: int,
)
    requires
        a.len() == b.len(),
        0 <= k < a.len(),
        a[k] != b[k],
        forall|i: int| 0 <= i < a.len() && i != k ==> a[i] == b[i],
    ensures
        signature_of(tag, matrix, a) != signature_of(tag, matrix, b),
{
    let placed = mixed_words(mixed(HASH_SEED, tag), matrix, matrix.len() as int);
    lemma_changed_word(placed, placed, a, b, k, a.len() as int);
}

/// Commands with different tags have different signatures, however alike they are placed.
pub proof fn changed_tag_changes_signature(
    tag: u64,
    other: u64,
    matrix: Seq<u32>,
    color: Seq<u32>,
)
    requires
        tag != other,
    ensures
        signature_of(tag, matrix, color) != signature_of(other, matrix, color),
{
    let a = mixed(HASH_SEED, tag);
    let b = mixed(HASH_SEED, other);
    if a == b {
        mixing_is_injective(HASH_SEED, tag, HASH_SEED, other);
    }
    lemma_changed_word(a, b, matrix, matrix, -1, matrix.len() as int);
    lemma_changed_word(
        mixed_words(a, matrix, matrix.len() as int),
        mixed_words(b, matrix, matrix.len() as int),
        color,
        color,
        -1,
        color.len() as int,
    );
}

/// The rolling hash of some words: for each in turn, an exclusive or with it and a product with
/// 1099511628211 modulo 2^64.
pub open spec fn hash_of(words: Seq<u64>) -> u64
    decreases words.len(),
{
    if words.len() == 0 {
        14695981039346656037
    } else {
        ((hash_of(words.drop_last()) ^ words.last()) as int * 1099511628211int
            % 0x1_0000_0000_0000_0000int) as u64
    }
}

/// Some 32-bit words, each in 64 bits.
pub open spec fn widened(words: Seq<u32>) -> Seq<u64> {
    words.map_values(|word: u32| word as u64)
}

/// Mixing a value into a hash goes on with it for one more word.
pub proof fn mixing_adds_a_word(words: Seq<u64>, value: u64)
    ensures
        hash_of(words.push(value)) == mixed(hash_of(words), value),
        hash_of(Seq::empty()) == HASH_SEED,
{
    assert(words.push(value).drop_last() =~= words);
}

proof fn lemma_words_are_mixed(before: Seq<u64>, words: Seq<u32>, n: int)
    requires
        0 <= n <= words.len(),
    ensures
        mixed_words(hash_of(before), words, n) == hash_of(before + widened(words).take(n)),
    decreases n,
{
    if n == 0 {
        assert(before + widened(words).take(0) =~= before);
    } else {
        lemma_words_are_mixed(before, words, n - 1);
        let shorter = before + widened(words).take(n - 1);
        mixing_adds_a_word(shorter, words[n - 1] as u64);
        assert(shorter.push(words[n - 1] as u64) =~= before + widened(words).take(n));
    }
}

/// The signature of a placed command is the rolling hash of its tag, then the numbers of its
/// matrix, then those of its color transform, each a word of its own.
pub proof fn signature_hashes_all_words(tag: u64, matrix: Seq<u32>, color: Seq<u32>)
    ensures
        signature_of(tag, matrix, color) == hash_of(
            seq![tag] + widened(matrix) + widened(color),
        ),
{
    let none = Seq::<u64>::empty();
    mixing_adds_a_word(none, tag);
    assert(none.push(tag) =~= seq![tag]);
    lemma_words_are_mixed(seq![tag], matrix, matrix.len() as int);
    assert(widened(matrix).take(matrix.len() as int) =~= widened(matrix));
    lemma_words_are_mixed(seq![tag] + widened(matrix), color, color.len() as int);
    assert(widened(color).take(color.len() as int) =~= widened(color));
}

} // verus!
