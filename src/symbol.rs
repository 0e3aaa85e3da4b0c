//! Records of a symbol table: three trees, five atoms and a set of flags.
use crate::tree::Irep;
use vstd::prelude::*;

verus! {

/// The number of defined flag bits; any bit above them is a format error.
pub const FLAG_BITS: u64 = 17;

/// One record of a symbol table.
#[derive(Debug)]
pub struct Symbol {
    pub typ: Irep,
    pub value: Irep,
    pub location: Irep,
    pub name: String,
    pub module: String,
    pub base_name: String,
    pub mode: String,
    pub pretty_name: String,
    pub is_volatile: bool,
    pub is_extern: bool,
    pub is_file_local: bool,
    pub is_thread_local: bool,
    pub is_static_lifetime: bool,
    pub is_lvalue: bool,
    pub is_auxiliary: bool,
    pub is_parameter: bool,
    pub is_state_var: bool,
    pub is_output: bool,
    pub is_input: bool,
    pub is_exported: bool,
    pub is_macro: bool,
    pub is_property: bool,
    pub is_type: bool,
    pub is_weak: bool,
}

/// The records of a table, in the order they are written.
#[derive(Debug)]
pub struct SymbolTable {
    pub symbol_table: Vec<Symbol>,
}

/// The flags of a record, one per bit: `is_volatile` at bit 0 up to
/// `is_weak` at bit 16, bit 6 always clear.
#[derive(Debug, Clone, Copy, PartialEq, Eq, Structural)]
pub struct SymbolFlags {
    pub is_volatile: bool,
    pub is_extern: bool,
    pub is_file_local: bool,
    pub is_thread_local: bool,
    pub is_static_lifetime: bool,
    pub is_lvalue: bool,
    pub is_auxiliary: bool,
    pub is_parameter: bool,
    pub is_state_var: bool,
    pub is_output: bool,
    pub is_input: bool,
    pub is_exported: bool,
    pub is_macro: bool,
    pub is_property: bool,
    pub is_type: bool,
    pub is_weak: bool,
}

/// `1` for a set flag, `0` for a clear one.
#[verifier::opaque]
pub open spec fn bit(b: bool) -> nat {
    if b {
        1
    } else {
        0
    }
}

/// Four flags as the bits of a number below 16, the first one lowest.
#[verifier::opaque]
pub open spec fn nibble(a: bool, b: bool, c: bool, d: bool) -> nat {
    bit(a) + 2 * bit(b) + 4 * bit(c) + 8 * bit(d)
}

/// The flag word of `f`.
pub open spec fn flags_word(f: SymbolFlags) -> nat {
    nibble(f.is_volatile, f.is_extern, f.is_file_local, f.is_thread_local) + 16 * nibble(
        f.is_static_lifetime,
        f.is_lvalue,
        false,
        f.is_auxiliary,
    ) + 256 * nibble(f.is_parameter, f.is_state_var, f.is_output, f.is_input) + 4096 * nibble(
        f.is_exported,
        f.is_macro,
        f.is_property,
        f.is_type,
    ) + 65536 * bit(f.is_weak)
}

/// `2` to the power `k`.
pub open spec fn pow2(k: nat) -> nat
    decreases k,
{
    if k == 0 {
        1
    } else {
        2 * pow2((k - 1) as nat)
    }
}

/// Whether bit `k` of `w` is set.
#[verifier::opaque]
pub open spec fn bit_set(w: nat, k: nat) -> bool {
    (w / pow2(k)) % 2 == 1
}

/// The flags that the word `w` holds.
pub open spec fn flags_of_word(w: nat) -> SymbolFlags {
    SymbolFlags {
        is_volatile: bit_set(w, 0),
        is_extern: bit_set(w, 1),
        is_file_local: bit_set(w, 2),
        is_thread_local: bit_set(w, 3),
        is_static_lifetime: bit_set(w, 4),
        is_lvalue: bit_set(w, 5),
        is_auxiliary: bit_set(w, 7),
        is_parameter: bit_set(w, 8),
        is_state_var: bit_set(w, 9),
        is_output: bit_set(w, 10),
        is_input: bit_set(w, 11),
        is_exported: bit_set(w, 12),
        is_macro: bit_set(w, 13),
        is_property: bit_set(w, 14),
        is_type: bit_set(w, 15),
        is_weak: bit_set(w, 16),
    }
}

impl Symbol {
    /// The flags of this record.
    pub fn flags(&self) -> (r: SymbolFlags)
        ensures
            r == self.spec_flags(),
    {
        SymbolFlags {
            is_volatile: self.is_volatile,
            is_extern: self.is_extern,
            is_file_local: self.is_file_local,
            is_thread_local: self.is_thread_local,
            is_static_lifetime: self.is_static_lifetime,
            is_lvalue: self.is_lvalue,
            is_auxiliary: self.is_auxiliary,
            is_parameter: self.is_parameter,
            is_state_var: self.is_state_var,
            is_output: self.is_output,
            is_input: self.is_input,
            is_exported: self.is_exported,
            is_macro: self.is_macro,
            is_property: self.is_property,
            is_type: self.is_type,
            is_weak: self.is_weak,
        }
    }

    pub open spec fn spec_flags(&self) -> SymbolFlags {
        SymbolFlags {
            is_volatile: self.is_volatile,
            is_extern: self.is_extern,
            is_file_local: self.is_file_local,
            is_thread_local: self.is_thread_local,
            is_static_lifetime: self.is_static_lifetime,
            is_lvalue: self.is_lvalue,
            is_auxiliary: self.is_auxiliary,
            is_parameter: self.is_parameter,
            is_state_var: self.is_state_var,
            is_output: self.is_output,
            is_input: self.is_input,
            is_exported: self.is_exported,
            is_macro: self.is_macro,
            is_property: self.is_property,
            is_type: self.is_type,
            is_weak: self.is_weak,
        }
    }
}

fn flag_bit(b: bool) -> (r: usize)
    ensures
        r == bit(b),
        r <= 1,
{
    reveal(bit);
    if b {
        1
    } else {
        0
    }
}

fn nibble_of(a: bool, b: bool, c: bool, d: bool) -> (r: usize)
    ensures
        r == nibble(a, b, c, d),
        r < 16,
{
    reveal(nibble);
    flag_bit(a) + 2 * flag_bit(b) + 4 * flag_bit(c) + 8 * flag_bit(d)
}

impl SymbolFlags {
    /// Packs the flags into their word.
    pub fn to_word(&self) -> (r: usize)
        ensures
            r == flags_word(*self),
            r < 0x2_0000,
    {
        let n0: usize = nibble_of(
            self.is_volatile,
            self.is_extern,
            self.is_file_local,
            self.is_thread_local,
        );
        let n1: usize = nibble_of(self.is_static_lifetime, self.is_lvalue, false, self.is_auxiliary);
        let n2: usize = nibble_of(self.is_parameter, self.is_state_var, self.is_output, self.is_input);
        let n3: usize = nibble_of(self.is_exported, self.is_macro, self.is_property, self.is_type);
        let n4: usize = flag_bit(self.is_weak);
        let low: usize = n0 + 16 * n1;
        assert(low < 256);
        let mid: usize = low + 256 * n2;
        assert(mid < 4096);
        let high: usize = mid + 4096 * n3;
        assert(high < 65536);
        high + 65536 * n4
    }

    /// Unpacks the flags from a word whose bits above the defined ones are
    /// clear.
    pub fn from_word(w: usize) -> (r: SymbolFlags)
        requires
            w < 0x2_0000,
        ensures
            r == flags_of_word(w as nat),
    {
        proof {
            reveal_with_fuel(pow2, 17);
            reveal(bit_set);
        }
        SymbolFlags {
            is_volatile: (w / 1) % 2 == 1,
            is_extern: (w / 2) % 2 == 1,
            is_file_local: (w / 4) % 2 == 1,
            is_thread_local: (w / 8) % 2 == 1,
            is_static_lifetime: (w / 16) % 2 == 1,
            is_lvalue: (w / 32) % 2 == 1,
            is_auxiliary: (w / 128) % 2 == 1,
            is_parameter: (w / 256) % 2 == 1,
            is_state_var: (w / 512) % 2 == 1,
            is_output: (w / 1024) % 2 == 1,
            is_input: (w / 2048) % 2 == 1,
            is_exported: (w / 4096) % 2 == 1,
            is_macro: (w / 8192) % 2 == 1,
            is_property: (w / 16384) % 2 == 1,
            is_type: (w / 32768) % 2 == 1,
            is_weak: (w / 65536) % 2 == 1,
        }
    }
}



/// Bit `b` of a number whose lower bits make `lo` and whose bits above it
/// make `hi`.
proof fn lemma_bit_of(lo: int, b: int, hi: int, d: int)
    requires
        0 <= lo < d,
        0 <= b <= 1,
        0 <= hi,
    ensures
        ((lo + d * b + 2 * d * hi) / d) % 2 == b,
{
    let q = b + 2 * hi;
    assert(lo + d * b + 2 * d * hi == q * d + lo) by (nonlinear_arith)
        requires
            q == b + 2 * hi,
    ;
    vstd::arithmetic::div_mod::lemma_fundamental_div_mod_converse(
        lo + d * b + 2 * d * hi,
        d,
        q,
        lo,
    );
}

/// The flag word as a sum of bits.
proof fn lemma_flags_word_sum(f: SymbolFlags)
    ensures
        flags_word(f) == bit(f.is_volatile) + 2 * bit(f.is_extern) + 4 * bit(f.is_file_local) + 8 * bit(f.is_thread_local) + 16 * bit(f.is_static_lifetime) + 32 * bit(f.is_lvalue) + 128 * bit(f.is_auxiliary) + 256 * bit(f.is_parameter) + 512 * bit(f.is_state_var) + 1024 * bit(f.is_output) + 2048 * bit(f.is_input) + 4096 * bit(f.is_exported) + 8192 * bit(f.is_macro) + 16384 * bit(f.is_property) + 32768 * bit(f.is_type) + 65536 * bit(f.is_weak),
        bit(f.is_volatile) <= 1, bit(f.is_extern) <= 1, bit(f.is_file_local) <= 1, bit(f.is_thread_local) <= 1, bit(f.is_static_lifetime) <= 1, bit(f.is_lvalue) <= 1, bit(f.is_auxiliary) <= 1, bit(f.is_parameter) <= 1, bit(f.is_state_var) <= 1, bit(f.is_output) <= 1, bit(f.is_input) <= 1, bit(f.is_exported) <= 1, bit(f.is_macro) <= 1, bit(f.is_property) <= 1, bit(f.is_type) <= 1, bit(f.is_weak) <= 1,
        (bit(f.is_volatile) == 1) == f.is_volatile, (bit(f.is_extern) == 1) == f.is_extern, (bit(f.is_file_local) == 1) == f.is_file_local, (bit(f.is_thread_local) == 1) == f.is_thread_local, (bit(f.is_static_lifetime) == 1) == f.is_static_lifetime, (bit(f.is_lvalue) == 1) == f.is_lvalue, (bit(f.is_auxiliary) == 1) == f.is_auxiliary, (bit(f.is_parameter) == 1) == f.is_parameter, (bit(f.is_state_var) == 1) == f.is_state_var, (bit(f.is_output) == 1) == f.is_output, (bit(f.is_input) == 1) == f.is_input, (bit(f.is_exported) == 1) == f.is_exported, (bit(f.is_macro) == 1) == f.is_macro, (bit(f.is_property) == 1) == f.is_property, (bit(f.is_type) == 1) == f.is_type, (bit(f.is_weak) == 1) == f.is_weak,
{
    reveal(nibble);
    reveal(bit);
}

/// Bit `k` of `w`, where `d` is `2` to the power `k`.
proof fn lemma_bit_set(w: nat, k: nat, d: nat, lo: nat, b: nat, hi: nat)
    requires
        pow2(k) == d,
        lo < d,
        b <= 1,
        w == lo + d * b + 2 * d * hi,
    ensures
        bit_set(w, k) == (b == 1),
{
    reveal(bit_set);
    lemma_bit_of(lo as int, b as int, hi as int, d as int);
}

proof fn lemma_flag_bit_0(f: SymbolFlags)
    ensures
        bit_set(flags_word(f), 0) == f.is_volatile,
{
    lemma_flags_word_sum(f);
    reveal_with_fuel(pow2, 1);
    let w = flags_word(f);
    let lo: nat = 0;
    let b = bit(f.is_volatile);
    let hi: nat = 1 * bit(f.is_extern) + 2 * bit(f.is_file_local) + 4 * bit(f.is_thread_local) + 8 * bit(f.is_static_lifetime) + 16 * bit(f.is_lvalue) + 64 * bit(f.is_auxiliary) + 128 * bit(f.is_parameter) + 256 * bit(f.is_state_var) + 512 * bit(f.is_output) + 1024 * bit(f.is_input) + 2048 * bit(f.is_exported) + 4096 * bit(f.is_macro) + 8192 * bit(f.is_property) + 16384 * bit(f.is_type) + 32768 * bit(f.is_weak);
    let d = pow2(0);
    assert(w == lo + 1 * b + 2 * hi);
    assert(w == lo + d * b + 2 * d * hi) by (nonlinear_arith)
        requires
            d == 1,
            w == lo + 1 * b + 2 * hi,
    ;
    lemma_bit_set(w, 0, d, lo, b, hi);
}

proof fn lemma_flag_bit_1(f: SymbolFlags)
    ensures
        bit_set(flags_word(f), 1) == f.is_extern,
{
    lemma_flags_word_sum(f);
    reveal_with_fuel(pow2, 2);
    let w = flags_word(f);
    let lo: nat = 1 * bit(f.is_volatile);
    let b = bit(f.is_extern);
    let hi: nat = 1 * bit(f.is_file_local) + 2 * bit(f.is_thread_local) + 4 * bit(f.is_static_lifetime) + 8 * bit(f.is_lvalue) + 32 * bit(f.is_auxiliary) + 64 * bit(f.is_parameter) + 128 * bit(f.is_state_var) + 256 * bit(f.is_output) + 512 * bit(f.is_input) + 1024 * bit(f.is_exported) + 2048 * bit(f.is_macro) + 4096 * bit(f.is_property) + 8192 * bit(f.is_type) + 16384 * bit(f.is_weak);
    let d = pow2(1);
    assert(w == lo + 2 * b + 4 * hi);
    assert(w == lo + d * b + 2 * d * hi) by (nonlinear_arith)
        requires
            d == 2,
            w == lo + 2 * b + 4 * hi,
    ;
    lemma_bit_set(w, 1, d, lo, b, hi);
}

proof fn lemma_flag_bit_2(f: SymbolFlags)
    ensures
        bit_set(flags_word(f), 2) == f.is_file_local,
{
    lemma_flags_word_sum(f);
    reveal_with_fuel(pow2, 3);
    let w = flags_word(f);
    let lo: nat = 1 * bit(f.is_volatile) + 2 * bit(f.is_extern);
    let b = bit(f.is_file_local);
    let hi: nat = 1 * bit(f.is_thread_local) + 2 * bit(f.is_static_lifetime) + 4 * bit(f.is_lvalue) + 16 * bit(f.is_auxiliary) + 32 * bit(f.is_parameter) + 64 * bit(f.is_state_var) + 128 * bit(f.is_output) + 256 * bit(f.is_input) + 512 * bit(f.is_exported) + 1024 * bit(f.is_macro) + 2048 * bit(f.is_property) + 4096 * bit(f.is_type) + 8192 * bit(f.is_weak);
    let d = pow2(2);
    assert(w == lo + 4 * b + 8 * hi);
    assert(w == lo + d * b + 2 * d * hi) by (nonlinear_arith)
        requires
            d == 4,
            w == lo + 4 * b + 8 * hi,
    ;
    lemma_bit_set(w, 2, d, lo, b, hi);
}

proof fn lemma_flag_bit_3(f: SymbolFlags)
    ensures
        bit_set(flags_word(f), 3) == f.is_thread_local,
{
    lemma_flags_word_sum(f);
    reveal_with_fuel(pow2, 4);
    let w = flags_word(f);
    let lo: nat = 1 * bit(f.is_volatile) + 2 * bit(f.is_extern) + 4 * bit(f.is_file_local);
    let b = bit(f.is_thread_local);
    let hi: nat = 1 * bit(f.is_static_lifetime) + 2 * bit(f.is_lvalue) + 8 * bit(f.is_auxiliary) + 16 * bit(f.is_parameter) + 32 * bit(f.is_state_var) + 64 * bit(f.is_output) + 128 * bit(f.is_input) + 256 * bit(f.is_exported) + 512 * bit(f.is_macro) + 1024 * bit(f.is_property) + 2048 * bit(f.is_type) + 4096 * bit(f.is_weak);
    let d = pow2(3);
    assert(w == lo + 8 * b + 16 * hi);
    assert(w == lo + d * b + 2 * d * hi) by (nonlinear_arith)
        requires
            d == 8,
            w == lo + 8 * b + 16 * hi,
    ;
    lemma_bit_set(w, 3, d, lo, b, hi);
}

proof fn lemma_flag_bit_4(f: SymbolFlags)
    ensures
        bit_set(flags_word(f), 4) == f.is_static_lifetime,
{
    lemma_flags_word_sum(f);
    reveal_with_fuel(pow2, 5);
    let w = flags_word(f);
    let lo: nat = 1 * bit(f.is_volatile) + 2 * bit(f.is_extern) + 4 * bit(f.is_file_local) + 8 * bit(f.is_thread_local);
    let b = bit(f.is_static_lifetime);
    let hi: nat = 1 * bit(f.is_lvalue) + 4 * bit(f.is_auxiliary) + 8 * bit(f.is_parameter) + 16 * bit(f.is_state_var) + 32 * bit(f.is_output) + 64 * bit(f.is_input) + 128 * bit(f.is_exported) + 256 * bit(f.is_macro) + 512 * bit(f.is_property) + 1024 * bit(f.is_type) + 2048 * bit(f.is_weak);
    let d = pow2(4);
    assert(w == lo + 16 * b + 32 * hi);
    assert(w == lo + d * b + 2 * d * hi) by (nonlinear_arith)
        requires
            d == 16,
            w == lo + 16 * b + 32 * hi,
    ;
    lemma_bit_set(w, 4, d, lo, b, hi);
}

proof fn lemma_flag_bit_5(f: SymbolFlags)
    ensures
        bit_set(flags_word(f), 5) == f.is_lvalue,
{
    lemma_flags_word_sum(f);
    reveal_with_fuel(pow2, 6);
    let w = flags_word(f);
    let lo: nat = 1 * bit(f.is_volatile) + 2 * bit(f.is_extern) + 4 * bit(f.is_file_local) + 8 * bit(f.is_thread_local) + 16 * bit(f.is_static_lifetime);
    let b = bit(f.is_lvalue);
    let hi: nat = 2 * bit(f.is_auxiliary) + 4 * bit(f.is_parameter) + 8 * bit(f.is_state_var) + 16 * bit(f.is_output) + 32 * bit(f.is_input) + 64 * bit(f.is_exported) + 128 * bit(f.is_macro) + 256 * bit(f.is_property) + 512 * bit(f.is_type) + 1024 * bit(f.is_weak);
    let d = pow2(5);
    assert(w == lo + 32 * b + 64 * hi);
    assert(w == lo + d * b + 2 * d * hi) by (nonlinear_arith)
        requires
            d == 32,
            w == lo + 32 * b + 64 * hi,
    ;
    lemma_bit_set(w, 5, d, lo, b, hi);
}

proof fn lemma_flag_bit_7(f: SymbolFlags)
    ensures
        bit_set(flags_word(f), 7) == f.is_auxiliary,
{
    lemma_flags_word_sum(f);
    reveal_with_fuel(pow2, 8);
    let w = flags_word(f);
    let lo: nat = 1 * bit(f.is_volatile) + 2 * bit(f.is_extern) + 4 * bit(f.is_file_local) + 8 * bit(f.is_thread_local) + 16 * bit(f.is_static_lifetime) + 32 * bit(f.is_lvalue);
    let b = bit(f.is_auxiliary);
    let hi: nat = 1 * bit(f.is_parameter) + 2 * bit(f.is_state_var) + 4 * bit(f.is_output) + 8 * bit(f.is_input) + 16 * bit(f.is_exported) + 32 * bit(f.is_macro) + 64 * bit(f.is_property) + 128 * bit(f.is_type) + 256 * bit(f.is_weak);
    let d = pow2(7);
    assert(w == lo + 128 * b + 256 * hi);
    assert(w == lo + d * b + 2 * d * hi) by (nonlinear_arith)
        requires
            d == 128,
            w == lo + 128 * b + 256 * hi,
    ;
    lemma_bit_set(w, 7, d, lo, b, hi);
}

proof fn lemma_flag_bit_8(f: SymbolFlags)
    ensures
        bit_set(flags_word(f), 8) == f.is_parameter,
{
    lemma_flags_word_sum(f);
    reveal_with_fuel(pow2, 9);
    let w = flags_word(f);
    let lo: nat = 1 * bit(f.is_volatile) + 2 * bit(f.is_extern) + 4 * bit(f.is_file_local) + 8 * bit(f.is_thread_local) + 16 * bit(f.is_static_lifetime) + 32 * bit(f.is_lvalue) + 128 * bit(f.is_auxiliary);
    let b = bit(f.is_parameter);
    let hi: nat = 1 * bit(f.is_state_var) + 2 * bit(f.is_output) + 4 * bit(f.is_input) + 8 * bit(f.is_exported) + 16 * bit(f.is_macro) + 32 * bit(f.is_property) + 64 * bit(f.is_type) + 128 * bit(f.is_weak);
    let d = pow2(8);
    assert(w == lo + 256 * b + 512 * hi);
    assert(w == lo + d * b + 2 * d * hi) by (nonlinear_arith)
        requires
            d == 256,
            w == lo + 256 * b + 512 * hi,
    ;
    lemma_bit_set(w, 8, d, lo, b, hi);
}

proof fn lemma_flag_bit_9(f: SymbolFlags)
    ensures
        bit_set(flags_word(f), 9) == f.is_state_var,
{
    lemma_flags_word_sum(f);
    reveal_with_fuel(pow2, 10);
    let w = flags_word(f);
    let lo: nat = 1 * bit(f.is_volatile) + 2 * bit(f.is_extern) + 4 * bit(f.is_file_local) + 8 * bit(f.is_thread_local) + 16 * bit(f.is_static_lifetime) + 32 * bit(f.is_lvalue) + 128 * bit(f.is_auxiliary) + 256 * bit(f.is_parameter);
    let b = bit(f.is_state_var);
    let hi: nat = 1 * bit(f.is_output) + 2 * bit(f.is_input) + 4 * bit(f.is_exported) + 8 * bit(f.is_macro) + 16 * bit(f.is_property) + 32 * bit(f.is_type) + 64 * bit(f.is_weak);
    let d = pow2(9);
    assert(w == lo + 512 * b + 1024 * hi);
    assert(w == lo + d * b + 2 * d * hi) by (nonlinear_arith)
        requires
            d == 512,
            w == lo + 512 * b + 1024 * hi,
    ;
    lemma_bit_set(w, 9, d, lo, b, hi);
}

proof fn lemma_flag_bit_10(f: SymbolFlags)
    ensures
        bit_set(flags_word(f), 10) == f.is_output,
{
    lemma_flags_word_sum(f);
    reveal_with_fuel(pow2, 11);
    let w = flags_word(f);
    let lo: nat = 1 * bit(f.is_volatile) + 2 * bit(f.is_extern) + 4 * bit(f.is_file_local) + 8 * bit(f.is_thread_local) + 16 * bit(f.is_static_lifetime) + 32 * bit(f.is_lvalue) + 128 * bit(f.is_auxiliary) + 256 * bit(f.is_parameter) + 512 * bit(f.is_state_var);
    let b = bit(f.is_output);
    let hi: nat = 1 * bit(f.is_input) + 2 * bit(f.is_exported) + 4 * bit(f.is_macro) + 8 * bit(f.is_property) + 16 * bit(f.is_type) + 32 * bit(f.is_weak);
    let d = pow2(10);
    assert(w == lo + 1024 * b + 2048 * hi);
    assert(w == lo + d * b + 2 * d * hi) by (nonlinear_arith)
        requires
            d == 1024,
            w == lo + 1024 * b + 2048 * hi,
    ;
    lemma_bit_set(w, 10, d, lo, b, hi);
}

proof fn lemma_flag_bit_11(f: SymbolFlags)
    ensures
        bit_set(flags_word(f), 11) == f.is_input,
{
    lemma_flags_word_sum(f);
    reveal_with_fuel(pow2, 12);
    let w = flags_word(f);
    let lo: nat = 1 * bit(f.is_volatile) + 2 * bit(f.is_extern) + 4 * bit(f.is_file_local) + 8 * bit(f.is_thread_local) + 16 * bit(f.is_static_lifetime) + 32 * bit(f.is_lvalue) + 128 * bit(f.is_auxiliary) + 256 * bit(f.is_parameter) + 512 * bit(f.is_state_var) + 1024 * bit(f.is_output);
    let b = bit(f.is_input);
    let hi: nat = 1 * bit(f.is_exported) + 2 * bit(f.is_macro) + 4 * bit(f.is_property) + 8 * bit(f.is_type) + 16 * bit(f.is_weak);
    let d = pow2(11);
    assert(w == lo + 2048 * b + 4096 * hi);
    assert(w == lo + d * b + 2 * d * hi) by (nonlinear_arith)
        requires
            d == 2048,
            w == lo + 2048 * b + 4096 * hi,
    ;
    lemma_bit_set(w, 11, d, lo, b, hi);
}

proof fn lemma_flag_bit_12(f: SymbolFlags)
    ensures
        bit_set(flags_word(f), 12) == f.is_exported,
{
    lemma_flags_word_sum(f);
    reveal_with_fuel(pow2, 13);
    let w = flags_word(f);
    let lo: nat = 1 * bit(f.is_volatile) + 2 * bit(f.is_extern) + 4 * bit(f.is_file_local) + 8 * bit(f.is_thread_local) + 16 * bit(f.is_static_lifetime) + 32 * bit(f.is_lvalue) + 128 * bit(f.is_auxiliary) + 256 * bit(f.is_parameter) + 512 * bit(f.is_state_var) + 1024 * bit(f.is_output) + 2048 * bit(f.is_input);
    let b = bit(f.is_exported);
    let hi: nat = 1 * bit(f.is_macro) + 2 * bit(f.is_property) + 4 * bit(f.is_type) + 8 * bit(f.is_weak);
    let d = pow2(12);
    assert(w == lo + 4096 * b + 8192 * hi);
    assert(w == lo + d * b + 2 * d * hi) by (nonlinear_arith)
        requires
            d == 4096,
            w == lo + 4096 * b + 8192 * hi,
    ;
    lemma_bit_set(w, 12, d, lo, b, hi);
}

proof fn lemma_flag_bit_13(f: SymbolFlags)
    ensures
        bit_set(flags_word(f), 13) == f.is_macro,
{
    lemma_flags_word_sum(f);
    reveal_with_fuel(pow2, 14);
    let w = flags_word(f);
    let lo: nat = 1 * bit(f.is_volatile) + 2 * bit(f.is_extern) + 4 * bit(f.is_file_local) + 8 * bit(f.is_thread_local) + 16 * bit(f.is_static_lifetime) + 32 * bit(f.is_lvalue) + 128 * bit(f.is_auxiliary) + 256 * bit(f.is_parameter) + 512 * bit(f.is_state_var) + 1024 * bit(f.is_output) + 2048 * bit(f.is_input) + 4096 * bit(f.is_exported);
    let b = bit(f.is_macro);
    let hi: nat = 1 * bit(f.is_property) + 2 * bit(f.is_type) + 4 * bit(f.is_weak);
    let d = pow2(13);
    assert(w == lo + 8192 * b + 16384 * hi);
    assert(w == lo + d * b + 2 * d * hi) by (nonlinear_arith)
        requires
            d == 8192,
            w == lo + 8192 * b + 16384 * hi,
    ;
    lemma_bit_set(w, 13, d, lo, b, hi);
}

proof fn lemma_flag_bit_14(f: SymbolFlags)
    ensures
        bit_set(flags_word(f), 14) == f.is_property,
{
    lemma_flags_word_sum(f);
    reveal_with_fuel(pow2, 15);
    let w = flags_word(f);
    let lo: nat = 1 * bit(f.is_volatile) + 2 * bit(f.is_extern) + 4 * bit(f.is_file_local) + 8 * bit(f.is_thread_local) + 16 * bit(f.is_static_lifetime) + 32 * bit(f.is_lvalue) + 128 * bit(f.is_auxiliary) + 256 * bit(f.is_parameter) + 512 * bit(f.is_state_var) + 1024 * bit(f.is_output) + 2048 * bit(f.is_input) + 4096 * bit(f.is_exported) + 8192 * bit(f.is_macro);
    let b = bit(f.is_property);
    let hi: nat = 1 * bit(f.is_type) + 2 * bit(f.is_weak);
    let d = pow2(14);
    assert(w == lo + 16384 * b + 32768 * hi);
    assert(w == lo + d * b + 2 * d * hi) by (nonlinear_arith)
        requires
            d == 16384,
            w == lo + 16384 * b + 32768 * hi,
    ;
    lemma_bit_set(w, 14, d, lo, b, hi);
}

proof fn lemma_flag_bit_15(f: SymbolFlags)
    ensures
        bit_set(flags_word(f), 15) == f.is_type,
{
    lemma_flags_word_sum(f);
    reveal_with_fuel(pow2, 16);
    let w = flags_word(f);
    let lo: nat = 1 * bit(f.is_volatile) + 2 * bit(f.is_extern) + 4 * bit(f.is_file_local) + 8 * bit(f.is_thread_local) + 16 * bit(f.is_static_lifetime) + 32 * bit(f.is_lvalue) + 128 * bit(f.is_auxiliary) + 256 * bit(f.is_parameter) + 512 * bit(f.is_state_var) + 1024 * bit(f.is_output) + 2048 * bit(f.is_input) + 4096 * bit(f.is_exported) + 8192 * bit(f.is_macro) + 16384 * bit(f.is_property);
    let b = bit(f.is_type);
    let hi: nat = 1 * bit(f.is_weak);
    let d = pow2(15);
    assert(w == lo + 32768 * b + 65536 * hi);
    assert(w == lo + d * b + 2 * d * hi) by (nonlinear_arith)
        requires
            d == 32768,
            w == lo + 32768 * b + 65536 * hi,
    ;
    lemma_bit_set(w, 15, d, lo, b, hi);
}

proof fn lemma_flag_bit_16(f: SymbolFlags)
    ensures
        bit_set(flags_word(f), 16) == f.is_weak,
{
    lemma_flags_word_sum(f);
    reveal_with_fuel(pow2, 17);
    let w = flags_word(f);
    let lo: nat = 1 * bit(f.is_volatile) + 2 * bit(f.is_extern) + 4 * bit(f.is_file_local) + 8 * bit(f.is_thread_local) + 16 * bit(f.is_static_lifetime) + 32 * bit(f.is_lvalue) + 128 * bit(f.is_auxiliary) + 256 * bit(f.is_parameter) + 512 * bit(f.is_state_var) + 1024 * bit(f.is_output) + 2048 * bit(f.is_input) + 4096 * bit(f.is_exported) + 8192 * bit(f.is_macro) + 16384 * bit(f.is_property) + 32768 * bit(f.is_type);
    let b = bit(f.is_weak);
    let hi: nat = 0;
    let d = pow2(16);
    assert(w == lo + 65536 * b + 131072 * hi);
    assert(w == lo + d * b + 2 * d * hi) by (nonlinear_arith)
        requires
            d == 65536,
            w == lo + 65536 * b + 131072 * hi,
    ;
    lemma_bit_set(w, 16, d, lo, b, hi);
}

/// The flag word of any flags has no bit above the defined ones, and reading
/// it back gives the same flags.
pub proof fn lemma_flags_round_trip(f: SymbolFlags)
    ensures
        flags_word(f) < 0x2_0000,
        flags_of_word(flags_word(f)) == f,
{
    lemma_flags_word_sum(f);
    lemma_flag_bit_0(f);
    lemma_flag_bit_1(f);
    lemma_flag_bit_2(f);
    lemma_flag_bit_3(f);
    lemma_flag_bit_4(f);
    lemma_flag_bit_5(f);
    lemma_flag_bit_7(f);
    lemma_flag_bit_8(f);
    lemma_flag_bit_9(f);
    lemma_flag_bit_10(f);
    lemma_flag_bit_11(f);
    lemma_flag_bit_12(f);
    lemma_flag_bit_13(f);
    lemma_flag_bit_14(f);
    lemma_flag_bit_15(f);
    lemma_flag_bit_16(f);
}

} // verus!
