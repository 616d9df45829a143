//! Source text of the precomputed attack tables: one `BitBoardMask(0x..)` entry per
//! attack set, written in uppercase hexadecimal.
use vstd::prelude::*;

use crate::bitboard::knight_attacks;
use crate::bits::{bit, bits, lemma_bits_injective, popcount};
use crate::build_tools::{
    bishop_relevant_mask, compute_bishop_attacks, compute_rook_attacks, index_to_occupancy, rook_relevant_mask,
};
use crate::geometry::{bishop_targets, knight_targets, lemma_ray_walk_restrict, ray_walk, rook_lines, rook_targets};
use crate::intrinsics::{lemma_pdep_of_pext, mask_count_from, pdep_set, pext_from, pext_spec};
use vstd::arithmetic::power2::{lemma2_to64, lemma_pow2_unfold, pow2};
use crate::square::{file_of, on_board, rank_of, square_at, Square};
use crate::text::push_char;

verus! {

/// Something that writes one generated source file.
pub trait CodeGenerator {
    /// Name of the file the text goes to.
    fn filename(&self) -> &'static str;

    /// The text of the file.
    fn generate(&self) -> String;
}

/// Uppercase hexadecimal digit for `d` in `0..16`.
pub open spec fn hex_digit(d: u64) -> char {
    if d < 10 {
        ((48 + d) as u8) as char
    } else {
        ((55 + d) as u8) as char
    }
}

/// `v` as sixteen uppercase hexadecimal digits, most significant first.
pub open spec fn hex16(v: u64) -> Seq<char> {
    Seq::new(16, |i: int| hex_digit((v >> ((60 - 4 * i) as u64)) & 15u64))
}

/// Value of a hexadecimal digit character: `0` to `9` are 0 to 9, `A` to `F` are 10
/// to 15; any other character is -1.
pub open spec fn hex_char_value(c: char) -> int {
    if '0' <= c && c <= '9' {
        c as int - '0' as int
    } else if 'A' <= c && c <= 'F' {
        c as int - 'A' as int + 10
    } else {
        -1
    }
}

/// Value of a string of hexadecimal digits, most significant first.
pub open spec fn hex_value(s: Seq<char>) -> int
    decreases s.len(),
{
    if s.len() == 0 {
        0
    } else {
        hex_value(s.drop_last()) * 16 + hex_char_value(s.last())
    }
}

/// A digit written for `d` below 16 reads back as `d`.
proof fn lemma_hex_digit_value(d: u64)
    requires
        d < 16,
    ensures
        hex_char_value(hex_digit(d)) == d,
        ('0' <= hex_digit(d) && hex_digit(d) <= '9') || ('A' <= hex_digit(d) && hex_digit(d) <= 'F'),
{
}

/// Cutting the lowest hexadecimal digit off a shifted word.
proof fn lemma_nibble_step(v: u64, k: u64)
    by (bit_vector)
    requires
        k <= 56,
    ensures
        (v >> ((k + 4) as u64)) * 16 + ((v >> k) & 15u64) == v >> k,
        (v >> k) & 15u64 < 16,
{
}

/// The first `i` digits written for `v` read back as `v` without its last `16 - i`
/// digits.
proof fn lemma_hex_prefix(v: u64, i: int)
    requires
        1 <= i <= 16,
    ensures
        hex_value(hex16(v).take(i)) == v >> ((64 - 4 * i) as u64),
    decreases i,
{
    let h = hex16(v);
    let k = (64 - 4 * i) as u64;
    assert((v >> k) & 15u64 < 16) by (bit_vector);
    lemma_hex_digit_value((v >> k) & 15u64);
    assert(h.take(i).last() == h[i - 1]);
    assert(hex_char_value(h[i - 1]) == (v >> k) & 15u64);
    assert(hex_value(h.take(i)) == hex_value(h.take(i).drop_last()) * 16 + hex_char_value(h.take(i).last()));
    if i == 1 {
        assert(h.take(1).drop_last() =~= Seq::<char>::empty());
        assert(hex_value(h.take(1).drop_last()) == 0);
        assert((v >> 60u64) & 15u64 == v >> 60u64) by (bit_vector);
        assert(k == 60);
    } else {
        lemma_hex_prefix(v, i - 1);
        assert(h.take(i).drop_last() =~= h.take(i - 1));
        lemma_nibble_step(v, k);
        assert(((k + 4) as u64) == ((64 - 4 * (i - 1)) as u64));
        assert(hex_value(h.take(i - 1)) == v >> ((k + 4) as u64));
    }
}

/// The sixteen digits written for a word (the text of every generated table entry) are
/// uppercase hexadecimal digits and read back, base 16, as that word.
pub proof fn lemma_hex16_reads_back(v: u64)
    ensures
        forall|i: int|
            0 <= i < 16 ==> ('0' <= #[trigger] hex16(v)[i] && hex16(v)[i] <= '9') || ('A' <= hex16(v)[i] && hex16(v)[i]
                <= 'F'),
        hex_value(hex16(v)) == v,
{
    let h = hex16(v);
    assert forall|i: int| 0 <= i < 16 implies ('0' <= #[trigger] h[i] && h[i] <= '9') || ('A' <= h[i] && h[i] <= 'F') by {
        let k = (60 - 4 * i) as u64;
        assert((v >> k) & 15u64 < 16) by (bit_vector);
        lemma_hex_digit_value((v >> k) & 15u64);
    }
    lemma_hex_prefix(v, 16);
    assert(h.take(16) =~= h);
    assert(v >> 0u64 == v) by (bit_vector);
}

/// One table entry: `indent`, then `BitBoardMask(0x` with the sixteen digits of `v`,
/// then `),` and a newline.
pub open spec fn mask_entry(indent: Seq<char>, v: u64) -> Seq<char> {
    indent + "BitBoardMask(0x"@ + hex16(v) + "),\n"@
}

/// The word whose set bits are exactly the squares of `s`.
pub open spec fn word_of(s: Set<int>) -> u64 {
    choose|w: u64| bits(w) == s
}

/// A word is the word of its own squares.
pub proof fn lemma_word_of(w: u64)
    ensures
        word_of(bits(w)) == w,
{
    let v = word_of(bits(w));
    assert(bits(v) == bits(w));
    lemma_bits_injective(v, w);
}

/// Appends the sixteen uppercase hexadecimal digits of `v`.
pub fn push_hex16(out: &mut String, v: u64)
    ensures
        final(out)@ == old(out)@ + hex16(v),
{
    let ghost start = out@;
    let mut i: u64 = 0;
    while i < 16
        invariant
            i <= 16,
            out@ == start + hex16(v).take(i as int),
        decreases 16 - i,
    {
        let x = v >> (60 - 4 * i);
        let d = x & 15;
        assert(d < 16) by (bit_vector)
            requires d == x & 15;
        let c: char = if d < 10 {
            (48 + d as u8) as char
        } else {
            (55 + d as u8) as char
        };
        push_char(out, c);
        proof {
            assert(c == hex16(v)[i as int]);
            assert(hex16(v).take(i + 1) =~= hex16(v).take(i as int).push(c));
        }
        i = i + 1;
    }
    proof {
        assert(hex16(v).take(16) =~= hex16(v));
    }
}

/// Appends `mask_entry(indent, v)`.
fn push_entry(out: &mut String, indent: &str, v: u64)
    ensures
        final(out)@ == old(out)@ + mask_entry(indent@, v),
{
    out.append(indent);
    out.append("BitBoardMask(0x");
    push_hex16(out, v);
    out.append("),\n");
}

/// Entries of the knight table for squares `0..n`.
pub open spec fn knight_entries(n: nat) -> Seq<char>
    decreases n,
{
    if n == 0 {
        Seq::empty()
    } else {
        knight_entries((n - 1) as nat) + mask_entry("    "@, word_of(knight_targets(n - 1)))
    }
}

/// Text of the generated knight attack table.
pub open spec fn knight_table_text() -> Seq<char> {
    "// Auto-generated knight attack table\n\n"@ + "pub const KNIGHT_ATTACKS: [BitBoardMask; 64] = [\n"@ + knight_entries(64) + "];\n"@
}

/// Writes the knight attack table, one entry per square.
pub struct KnightAttackTable;

impl CodeGenerator for KnightAttackTable {
    fn filename(&self) -> (r: &'static str)
        ensures
            r@ == "generated_knight_attacks.rs"@,
    {
        "generated_knight_attacks.rs"
    }

    fn generate(&self) -> (r: String)
        ensures
            r@ == knight_table_text(),
    {
        let mut output = String::new();
        output.append("// Auto-generated knight attack table\n\n");
        output.append("pub const KNIGHT_ATTACKS: [BitBoardMask; 64] = [\n");
        let ghost head = output@;
        let mut square: u8 = 0;
        while square < 64
            invariant
                square <= 64,
                output@ == head + knight_entries(square as nat),
            decreases 64 - square,
        {
            let sq = Square::try_from_index(square).unwrap();
            let attacks = knight_attacks(sq);
            proof {
                lemma_word_of(attacks.0);
            }
            push_entry(&mut output, "    ", attacks.0);
            square = square + 1;
            proof {
                assert(output@ =~= head + knight_entries(square as nat));
            }
        }
        output.append("];\n");
        output
    }
}


/// Squares whose occupancy a slider on `s` depends on: its rank and file for a rook
/// (`rook` true), its diagonals for a bishop.
pub open spec fn relevant_squares(rook: bool, s: int) -> Set<int> {
    if rook {
        rook_lines(s)
    } else {
        bishop_targets(s, Set::empty())
    }
}

/// Squares a slider on `s` attacks when `occ` is occupied.
pub open spec fn slider_attacks(rook: bool, s: int, occ: Set<int>) -> Set<int> {
    if rook {
        rook_targets(s, occ)
    } else {
        bishop_targets(s, occ)
    }
}

/// Number of occupancy variations of a relevant mask `m`: two to the number of its squares.
pub open spec fn variation_count(m: u64) -> nat {
    (1u64 << (popcount(m) as u64)) as nat
}

/// Entries of square `s` for the variations `0..n` of its relevant mask `m`.
pub open spec fn variation_entries(rook: bool, s: int, m: u64, n: nat) -> Seq<char>
    decreases n,
{
    if n == 0 {
        Seq::empty()
    } else {
        variation_entries(rook, s, m, (n - 1) as nat) + mask_entry(
            "        "@,
            word_of(slider_attacks(rook, s, pdep_set((n - 1) as nat, m, 0))),
        )
    }
}

/// The block of square `s`: every variation of its relevant mask, in index order.
pub open spec fn square_block(rook: bool, s: int) -> Seq<char> {
    let m = word_of(relevant_squares(rook, s));
    "    &[\n"@ + variation_entries(rook, s, m, variation_count(m)) + "    ],\n"@
}

/// Blocks of squares `0..n`.
pub open spec fn square_blocks(rook: bool, n: nat) -> Seq<char>
    decreases n,
{
    if n == 0 {
        Seq::empty()
    } else {
        square_blocks(rook, (n - 1) as nat) + square_block(rook, n - 1)
    }
}

/// Text of the generated rook table.
pub open spec fn rook_table_text() -> Seq<char> {
    "// Auto-generated rook attack table\n\n"@ + "pub const ROOK_ATTACKS: [&[BitBoardMask]; 64] = [\n"@ + square_blocks(true, 64)
        + "];\n"@
}

/// Text of the generated bishop table.
pub open spec fn bishop_table_text() -> Seq<char> {
    "// Auto-generated bishop attack table\n\n"@ + "pub const BISHOP_ATTACKS: [&[BitBoardMask]; 64] = [\n"@ + square_blocks(false, 64)
        + "];\n"@
}

/// Appends the blocks of every square for a rook (`rook` true) or a bishop.
fn push_square_blocks(out: &mut String, rook: bool)
    ensures
        final(out)@ == old(out)@ + square_blocks(rook, 64),
{
    let ghost start = out@;
    let mut square: usize = 0;
    while square < 64
        invariant
            square <= 64,
            out@ == start + square_blocks(rook, square as nat),
        decreases 64 - square,
    {
        let mask = if rook {
            rook_relevant_mask(square)
        } else {
            bishop_relevant_mask(square)
        };
        proof {
            lemma_word_of(mask.0);
        }
        let ghost m = mask.0;
        let ghost before = out@;
        let count = mask.count_ones();
        let c64 = count as u64;
        let num_variations: u64 = 1u64 << c64;
        assert(num_variations <= 0x1_0000_0000u64) by (bit_vector)
            requires
                num_variations == 1u64 << c64,
                c64 <= 32,
        ;
        out.append("    &[\n");
        let ghost block_start = out@;
        let mut index: u64 = 0;
        while index < num_variations
            invariant
                square < 64,
                m == word_of(relevant_squares(rook, square as int)),
                mask.0 == m,
                count == popcount(m),
                count <= 32,
                num_variations == variation_count(m),
                num_variations <= 0x1_0000_0000u64,
                index <= num_variations,
                out@ == block_start + variation_entries(rook, square as int, m, index as nat),
            decreases num_variations - index,
        {
            let occupancy = index_to_occupancy(index as usize, mask);
            let attacks = if rook {
                compute_rook_attacks(square, occupancy)
            } else {
                compute_bishop_attacks(square, occupancy)
            };
            proof {
                lemma_word_of(attacks.0);
            }
            push_entry(out, "        ", attacks.0);
            index = index + 1;
            proof {
                assert(out@ =~= block_start + variation_entries(rook, square as int, m, index as nat));
            }
        }
        out.append("    ],\n");
        square = square + 1;
        proof {
            assert(out@ =~= start + square_blocks(rook, square as nat));
        }
    }
}

/// Writes the rook attack table: for each square, the attacks for every occupancy
/// of its rank and file.
pub struct RookAttackTable;

impl CodeGenerator for RookAttackTable {
    fn filename(&self) -> (r: &'static str)
        ensures
            r@ == "generated_rook_attacks.rs"@,
    {
        "generated_rook_attacks.rs"
    }

    fn generate(&self) -> (r: String)
        ensures
            r@ == rook_table_text(),
    {
        let mut output = String::new();
        output.append("// Auto-generated rook attack table\n\n");
        output.append("pub const ROOK_ATTACKS: [&[BitBoardMask]; 64] = [\n");
        push_square_blocks(&mut output, true);
        output.append("];\n");
        output
    }
}

/// Writes the bishop attack table: for each square, the attacks for every occupancy
/// of its diagonals.
pub struct BishopAttackTable;

impl CodeGenerator for BishopAttackTable {
    fn filename(&self) -> (r: &'static str)
        ensures
            r@ == "generated_bishop_attacks.rs"@,
    {
        "generated_bishop_attacks.rs"
    }

    fn generate(&self) -> (r: String)
        ensures
            r@ == bishop_table_text(),
    {
        let mut output = String::new();
        output.append("// Auto-generated bishop attack table\n\n");
        output.append("pub const BISHOP_ATTACKS: [&[BitBoardMask]; 64] = [\n");
        push_square_blocks(&mut output, false);
        output.append("];\n");
        output
    }
}


/// The digit character for `d` in `0..10`.
pub open spec fn digit_char(d: nat) -> char {
    ((48 + d) as u8) as char
}

/// The letter character `A`.. for `k` in `0..26`.
pub open spec fn upper_letter(k: nat) -> char {
    ((65 + k) as u8) as char
}

/// Declaration of rank `k + 1` (`k` in `0..8`): the eight squares of that rank.
pub open spec fn rank_const_line(k: nat) -> Seq<char> {
    "pub const RANK_"@ + seq![digit_char(k + 1)] + ": BitBoardMask = BitBoardMask(0x"@ + hex16(0xFFu64 << ((8 * k) as u64))
        + ");\n"@
}

/// Entry naming rank `k + 1` in the table of all ranks.
pub open spec fn rank_name_line(k: nat) -> Seq<char> {
    "    RANK_"@ + seq![digit_char(k + 1)] + ",\n"@
}

/// Declaration of file `k` (`A` for 0): the eight squares of that file.
pub open spec fn file_const_line(k: nat) -> Seq<char> {
    "pub const FILE_"@ + seq![upper_letter(k)] + ": BitBoardMask = BitBoardMask(0x"@ + hex16(
        0x0101_0101_0101_0101u64 << (k as u64),
    ) + ");\n"@
}

/// Entry naming file `k` in the table of all files.
pub open spec fn file_name_line(k: nat) -> Seq<char> {
    "    FILE_"@ + seq![upper_letter(k)] + ",\n"@
}

/// The lines `line(0)` to `line(n - 1)`, in order.
pub open spec fn lines_upto(line: spec_fn(nat) -> Seq<char>, n: nat) -> Seq<char>
    decreases n,
{
    if n == 0 {
        Seq::empty()
    } else {
        lines_upto(line, (n - 1) as nat) + line((n - 1) as nat)
    }
}

/// Text of the generated rank masks.
pub open spec fn rank_bitboards_spec() -> Seq<char> {
    "// Auto-generated rank bitboards\n\n"@ + lines_upto(|k: nat| rank_const_line(k), 8) + "\n"@
        + "pub const RANK_MASKS: [BitBoardMask; BOARD_SIZE] = [\n"@ + lines_upto(|k: nat| rank_name_line(k), 8) + "];\n"@
}

/// A declaration `pub const NAME: BitBoardMask = BitBoardMask(0x..);` of `v`.
pub open spec fn mask_const_line(name: Seq<char>, v: u64) -> Seq<char> {
    "pub const "@ + name + ": BitBoardMask = BitBoardMask(0x"@ + hex16(v) + ");\n"@
}

/// Text of the generated file masks and of the masks without the edge files.
pub open spec fn file_bitboards_spec() -> Seq<char> {
    "// Auto-generated file bitboards\n\n"@ + lines_upto(|k: nat| file_const_line(k), 8) + "\n"@
        + "pub const FILE_MASKS: [BitBoardMask; BOARD_SIZE] = [\n"@ + lines_upto(|k: nat| file_name_line(k), 8) + "];\n"@
        + "\n"@ + "// Masks excluding specific files\n"@
        + mask_const_line("NOT_FILE_A"@, !0x0101_0101_0101_0101u64)
        + mask_const_line("NOT_FILE_AB"@, !(0x0101_0101_0101_0101u64 | 0x0202_0202_0202_0202u64))
        + mask_const_line("NOT_FILE_H"@, !0x8080_8080_8080_8080u64)
        + mask_const_line("NOT_FILE_GH"@, !(0x4040_4040_4040_4040u64 | 0x8080_8080_8080_8080u64))
}

/// Appends `pub const NAME: BitBoardMask = BitBoardMask(0x..);` for `v`.
fn push_mask_const(out: &mut String, name: &str, v: u64)
    ensures
        final(out)@ == old(out)@ + mask_const_line(name@, v),
{
    out.append("pub const ");
    out.append(name);
    out.append(": BitBoardMask = BitBoardMask(0x");
    push_hex16(out, v);
    out.append(");\n");
}

/// The generated rank masks: a constant per rank, then the table of all eight.
pub fn rank_bitboards_text() -> (r: String)
    ensures
        r@ == rank_bitboards_spec(),
{
    let mut output = String::new();
    output.append("// Auto-generated rank bitboards\n\n");
    let ghost head = output@;
    let mut k: u8 = 0;
    while k < 8
        invariant
            k <= 8,
            output@ == head + lines_upto(|k: nat| rank_const_line(k), k as nat),
        decreases 8 - k,
    {
        let value: u64 = 0xFFu64 << (8 * k as u64);
        output.append("pub const RANK_");
        push_char(&mut output, (49 + k) as char);
        output.append(": BitBoardMask = BitBoardMask(0x");
        push_hex16(&mut output, value);
        output.append(");\n");
        k = k + 1;
        proof {
            assert(output@ =~= head + lines_upto(|k: nat| rank_const_line(k), k as nat));
        }
    }
    output.append("\n");
    output.append("pub const RANK_MASKS: [BitBoardMask; BOARD_SIZE] = [\n");
    let ghost mid = output@;
    let mut k: u8 = 0;
    while k < 8
        invariant
            k <= 8,
            output@ == mid + lines_upto(|k: nat| rank_name_line(k), k as nat),
        decreases 8 - k,
    {
        output.append("    RANK_");
        push_char(&mut output, (49 + k) as char);
        output.append(",\n");
        k = k + 1;
        proof {
            assert(output@ =~= mid + lines_upto(|k: nat| rank_name_line(k), k as nat));
        }
    }
    output.append("];\n");
    output
}

/// The generated file masks: a constant per file, the table of all eight, and the
/// masks of the board without file A, files A and B, file H, files G and H.
pub fn file_bitboards_text() -> (r: String)
    ensures
        r@ == file_bitboards_spec(),
{
    let mut output = String::new();
    output.append("// Auto-generated file bitboards\n\n");
    let ghost head = output@;
    let mut k: u8 = 0;
    while k < 8
        invariant
            k <= 8,
            output@ == head + lines_upto(|k: nat| file_const_line(k), k as nat),
        decreases 8 - k,
    {
        let value: u64 = 0x0101_0101_0101_0101u64 << (k as u64);
        output.append("pub const FILE_");
        push_char(&mut output, (65 + k) as char);
        output.append(": BitBoardMask = BitBoardMask(0x");
        push_hex16(&mut output, value);
        output.append(");\n");
        k = k + 1;
        proof {
            assert(output@ =~= head + lines_upto(|k: nat| file_const_line(k), k as nat));
        }
    }
    output.append("\n");
    output.append("pub const FILE_MASKS: [BitBoardMask; BOARD_SIZE] = [\n");
    let ghost mid = output@;
    let mut k: u8 = 0;
    while k < 8
        invariant
            k <= 8,
            output@ == mid + lines_upto(|k: nat| file_name_line(k), k as nat),
        decreases 8 - k,
    {
        output.append("    FILE_");
        push_char(&mut output, (65 + k) as char);
        output.append(",\n");
        k = k + 1;
        proof {
            assert(output@ =~= mid + lines_upto(|k: nat| file_name_line(k), k as nat));
        }
    }
    output.append("];\n");
    output.append("\n");
    output.append("// Masks excluding specific files\n");
    let file_a: u64 = 0x0101_0101_0101_0101;
    let file_b: u64 = 0x0202_0202_0202_0202;
    let file_g: u64 = 0x4040_4040_4040_4040;
    let file_h: u64 = 0x8080_8080_8080_8080;
    push_mask_const(&mut output, "NOT_FILE_A", !file_a);
    push_mask_const(&mut output, "NOT_FILE_AB", !(file_a | file_b));
    push_mask_const(&mut output, "NOT_FILE_H", !file_h);
    push_mask_const(&mut output, "NOT_FILE_GH", !(file_g | file_h));
    output
}

/// Squares whose rank and file add up to an even number (a1, c1, ..., h8).
pub open spec fn even_squares() -> Set<int> {
    Set::new(|s: int| 0 <= s < 64 && (s / 8 + s % 8) % 2 == 0)
}

/// Entry of square `s` in the colour table: the squares of its own colour.
pub open spec fn colour_entry(s: int) -> Seq<char> {
    let even = word_of(even_squares());
    "    0x"@ + hex16(if (s / 8 + s % 8) % 2 == 0 { even } else { !even }) + ",\n"@
}

/// Text of the generated square colour table.
pub open spec fn square_color_mask_spec() -> Seq<char> {
    "// Auto-generated square color mask\n\n"@ + "pub const SQUARE_COLOR_MASK: [u64; 64] = [\n"@ + lines_upto(
        |k: nat| colour_entry(k as int),
        64,
    ) + "];\n"@
}

/// The generated square colour table: for each square, the mask of all squares of
/// its colour.
pub fn square_color_mask_text() -> (r: String)
    ensures
        r@ == square_color_mask_spec(),
{
    let mut light_squares: u64 = 0;
    let mut sq: u64 = 0;
    proof {
        crate::bits::lemma_bits_zero();
    }
    while sq < 64
        invariant
            sq <= 64,
            bits(light_squares) == Set::new(|s: int| 0 <= s < sq && (s / 8 + s % 8) % 2 == 0),
        decreases 64 - sq,
    {
        if (sq / 8 + sq % 8) % 2 == 0 {
            proof {
                crate::bits::lemma_bits_single(sq);
                crate::bits::lemma_bits_or(light_squares, 1u64 << sq);
            }
            light_squares = light_squares | (1u64 << sq);
        }
        sq = sq + 1;
        proof {
            assert(bits(light_squares) =~= Set::new(|s: int| 0 <= s < sq && (s / 8 + s % 8) % 2 == 0));
        }
    }
    let dark_squares: u64 = !light_squares;
    proof {
        assert(bits(light_squares) =~= even_squares());
        lemma_word_of(light_squares);
    }
    let mut output = String::new();
    output.append("// Auto-generated square color mask\n\n");
    output.append("pub const SQUARE_COLOR_MASK: [u64; 64] = [\n");
    let ghost head = output@;
    let mut s: u64 = 0;
    while s < 64
        invariant
            s <= 64,
            light_squares == word_of(even_squares()),
            dark_squares == !light_squares,
            output@ == head + lines_upto(|k: nat| colour_entry(k as int), s as nat),
        decreases 64 - s,
    {
        let mask = if (s / 8 + s % 8) % 2 == 0 {
            light_squares
        } else {
            dark_squares
        };
        output.append("    0x");
        push_hex16(&mut output, mask);
        output.append(",\n");
        s = s + 1;
        proof {
            assert(output@ =~= head + lines_upto(|k: nat| colour_entry(k as int), s as nat));
        }
    }
    output.append("];\n");
    output
}


/// The squares of `s` below `n` are the squares of some word.
proof fn lemma_word_exists(s: Set<int>, n: int)
    requires
        0 <= n <= 64,
    ensures
        exists|w: u64| bits(w) == s.intersect(Set::new(|i: int| 0 <= i < n)),
    decreases n,
{
    if n == 0 {
        crate::bits::lemma_bits_zero();
        assert(bits(0u64) =~= s.intersect(Set::new(|i: int| 0 <= i < n)));
    } else {
        lemma_word_exists(s, n - 1);
        let w = choose|w: u64| bits(w) == s.intersect(Set::new(|i: int| 0 <= i < n - 1));
        if s.contains(n - 1) {
            crate::bits::lemma_bits_single((n - 1) as u64);
            crate::bits::lemma_bits_or(w, 1u64 << ((n - 1) as u64));
            assert(bits(w | (1u64 << ((n - 1) as u64))) =~= s.intersect(Set::new(|i: int| 0 <= i < n)));
        } else {
            assert(bits(w) =~= s.intersect(Set::new(|i: int| 0 <= i < n)));
        }
    }
}

/// A set of board squares is the set of squares of its word.
pub proof fn lemma_bits_word_of(s: Set<int>)
    requires
        forall|i: int| s.contains(i) ==> 0 <= i < 64,
    ensures
        bits(word_of(s)) == s,
{
    lemma_word_exists(s, 64);
    assert(s.intersect(Set::new(|i: int| 0 <= i < 64)) =~= s);
}

/// On an empty board, a walk from (`r`, `f`) reaches its `k`-th square whenever that
/// square is on the board.
proof fn lemma_empty_walk_reaches(r: int, f: int, dr: int, df: int, fuel: nat, k: int)
    requires
        on_board(r, f),
        -1 <= dr <= 1,
        -1 <= df <= 1,
        1 <= k <= fuel,
        on_board(r + k * dr, f + k * df),
    ensures
        ray_walk(r, f, dr, df, Set::empty(), fuel).contains(square_at(r + k * dr, f + k * df)),
    decreases fuel,
{
    assert(on_board(r + dr, f + df)) by {
        assert(0 <= r + dr < 8 && 0 <= f + df < 8) by (nonlinear_arith)
            requires
                0 <= r < 8,
                0 <= f < 8,
                0 <= r + k * dr < 8,
                0 <= f + k * df < 8,
                -1 <= dr <= 1,
                -1 <= df <= 1,
                k >= 1,
        ;
    }
    if k > 1 {
        assert(r + dr + (k - 1) * dr == r + k * dr && f + df + (k - 1) * df == f + k * df) by (nonlinear_arith);
        lemma_empty_walk_reaches(r + dr, f + df, dr, df, (fuel - 1) as nat, k - 1);
    } else {
        assert(r + 1 * dr == r + dr && f + 1 * df == f + df);
    }
}

/// A bishop's attacks depend only on the occupancy of the squares it reaches on an
/// empty board, the squares of its relevant mask.
pub proof fn lemma_bishop_relevant_occupancy(s: int, occ: Set<int>)
    requires
        0 <= s < 64,
    ensures
        bishop_targets(s, occ) == bishop_targets(s, occ.intersect(bishop_targets(s, Set::empty()))),
{
    let (r, f) = (rank_of(s), file_of(s));
    let m = bishop_targets(s, Set::empty());
    assert forall|k: int| 1 <= k <= 8 && on_board(r + k * 1, f + k * 1) implies m.contains(#[trigger] square_at(r + k * 1, f + k * 1)) by {
        lemma_empty_walk_reaches(r, f, 1, 1, 8, k);
    }
    assert forall|k: int| 1 <= k <= 8 && on_board(r + k * -1, f + k * -1) implies m.contains(#[trigger] square_at(r + k * -1, f + k * -1)) by {
        lemma_empty_walk_reaches(r, f, -1, -1, 8, k);
    }
    assert forall|k: int| 1 <= k <= 8 && on_board(r + k * 1, f + k * -1) implies m.contains(#[trigger] square_at(r + k * 1, f + k * -1)) by {
        lemma_empty_walk_reaches(r, f, 1, -1, 8, k);
    }
    assert forall|k: int| 1 <= k <= 8 && on_board(r + k * -1, f + k * 1) implies m.contains(#[trigger] square_at(r + k * -1, f + k * 1)) by {
        lemma_empty_walk_reaches(r, f, -1, 1, 8, k);
    }
    lemma_ray_walk_restrict(r, f, 1, 1, occ, m, 8);
    lemma_ray_walk_restrict(r, f, -1, -1, occ, m, 8);
    lemma_ray_walk_restrict(r, f, 1, -1, occ, m, 8);
    lemma_ray_walk_restrict(r, f, -1, 1, occ, m, 8);
}

/// The generated table is right: the entry of square `s` at the index of any
/// occupancy `occ` (the bits of `occ` on the square's relevant mask, packed by `pext`,
/// as `occupancy_to_index` computes it) is the set of squares a slider on `s` attacks
/// when the squares of `occ` are occupied.
pub proof fn lemma_table_entry_at_index(rook: bool, s: int, occ: u64)
    requires
        0 <= s < 64,
    ensures
        ({
            let m = word_of(relevant_squares(rook, s));
            slider_attacks(rook, s, pdep_set(pext_spec(occ, m), m, 0)) == slider_attacks(rook, s, bits(occ))
        }),
{
    let rel = relevant_squares(rook, s);
    assert forall|i: int| rel.contains(i) implies 0 <= i < 64 by {
        if !rook {
            let (r, f) = (rank_of(s), file_of(s));
            let e = Set::<int>::empty();
            let (dr, df) = if ray_walk(r, f, 1, 1, e, 8).contains(i) {
                (1int, 1int)
            } else if ray_walk(r, f, -1, -1, e, 8).contains(i) {
                (-1int, -1int)
            } else if ray_walk(r, f, 1, -1, e, 8).contains(i) {
                (1int, -1int)
            } else {
                (-1int, 1int)
            };
            crate::geometry::lemma_ray_walk_on_line(r, f, dr, df, e, 8, i);
        }
    }
    lemma_bits_word_of(rel);
    let m = word_of(rel);
    lemma_pdep_of_pext(occ, m);
    crate::bits::lemma_bits_and(occ, m);
    if rook {
        crate::bitboard::lemma_rook_attacks_relevant_occupancy(s, bits(occ));
    } else {
        lemma_bishop_relevant_occupancy(s, bits(occ));
    }
}


/// What `pext` packs from square `i` up fits in as many bits as the mask has there.
proof fn lemma_pext_from_below(x: u64, m: u64, i: int)
    requires
        0 <= i <= 64,
    ensures
        pext_from(x, m, i) < pow2(mask_count_from(m, i)),
    decreases 64 - i,
{
    if i < 64 {
        lemma_pext_from_below(x, m, i + 1);
        if bit(m, i) {
            lemma_pow2_unfold(mask_count_from(m, i));
        }
    } else {
        lemma2_to64();
    }
}

proof fn lemma_shift_halves(m: u64, i: u64)
    by (bit_vector)
    requires
        i < 64,
    ensures
        ((m >> i) % 2 == 1) == ((m >> i) & 1u64 == 1u64),
        i < 63 ==> (m >> i) / 2 == m >> ((i + 1) as u64),
        i == 63 ==> (m >> i) / 2 == 0,
        m >> 0u64 == m,
{
}

/// The squares of `m` from square `i` up are the set bits of `m` shifted down by `i`.
proof fn lemma_count_from_popcount(m: u64, i: int)
    requires
        0 <= i < 64,
    ensures
        mask_count_from(m, i) == popcount(m >> (i as u64)),
    decreases 64 - i,
{
    let y = m >> (i as u64);
    lemma_shift_halves(m, i as u64);
    if i < 63 {
        lemma_count_from_popcount(m, i + 1);
    } else {
        assert(mask_count_from(m, 64) == 0);
        assert(popcount(0u64) == 0);
    }
    if y != 0 {
        assert(popcount(y) == (y % 2) as nat + popcount(y / 2));
    } else {
        assert(y / 2 == 0);
    }
}

/// A mask missing square `j` has fewer squares from `i` up than there are squares.
proof fn lemma_count_from_missing(m: u64, i: int, j: int)
    requires
        0 <= i <= j < 64,
        !bit(m, j),
    ensures
        mask_count_from(m, i) < 64 - i,
    decreases 64 - i,
{
    if i < j {
        lemma_count_from_missing(m, i + 1, j);
    } else {
        lemma_count_from_at_most(m, i + 1);
    }
}

/// A mask has at most one square per square from `i` up.
proof fn lemma_count_from_at_most(m: u64, i: int)
    requires
        0 <= i <= 64,
    ensures
        mask_count_from(m, i) <= 64 - i,
    decreases 64 - i,
{
    if i < 64 {
        lemma_count_from_at_most(m, i + 1);
    }
}

/// A slider's relevant squares never include its own square.
proof fn lemma_relevant_excludes_origin(rook: bool, s: int)
    requires
        0 <= s < 64,
    ensures
        !relevant_squares(rook, s).contains(s),
{
    if !rook && relevant_squares(rook, s).contains(s) {
        let (r, f) = (rank_of(s), file_of(s));
        let e = Set::<int>::empty();
        let (dr, df) = if ray_walk(r, f, 1, 1, e, 8).contains(s) {
            (1int, 1int)
        } else if ray_walk(r, f, -1, -1, e, 8).contains(s) {
            (-1int, -1int)
        } else if ray_walk(r, f, 1, -1, e, 8).contains(s) {
            (1int, -1int)
        } else {
            (-1int, 1int)
        };
        crate::geometry::lemma_ray_walk_on_line(r, f, dr, df, e, 8, s);
        let k = choose|k: int| 1 <= k <= 8 && #[trigger] square_at(r + k * dr, f + k * df) == s && on_board(r + k * dr, f + k * df);
        crate::geometry::lemma_square_coords(r + k * dr, f + k * df);
        assert(k * dr != 0) by (nonlinear_arith)
            requires
                k >= 1,
                dr == 1 || dr == -1,
        ;
    }
}

/// Every occupancy has an entry in the generated table of a square: the index
/// `occupancy_to_index` computes through the square's relevant mask is below the
/// number of variations written for it.
pub proof fn lemma_index_in_table(rook: bool, s: int, occ: u64)
    requires
        0 <= s < 64,
    ensures
        pext_spec(occ, word_of(relevant_squares(rook, s))) < variation_count(word_of(relevant_squares(rook, s))),
{
    let rel = relevant_squares(rook, s);
    assert forall|i: int| rel.contains(i) implies 0 <= i < 64 by {
        if !rook {
            let (r, f) = (rank_of(s), file_of(s));
            let e = Set::<int>::empty();
            let (dr, df) = if ray_walk(r, f, 1, 1, e, 8).contains(i) {
                (1int, 1int)
            } else if ray_walk(r, f, -1, -1, e, 8).contains(i) {
                (-1int, -1int)
            } else if ray_walk(r, f, 1, -1, e, 8).contains(i) {
                (1int, -1int)
            } else {
                (-1int, 1int)
            };
            crate::geometry::lemma_ray_walk_on_line(r, f, dr, df, e, 8, i);
        }
    }
    lemma_bits_word_of(rel);
    let m = word_of(rel);
    lemma_relevant_excludes_origin(rook, s);
    assert(!bit(m, s)) by {
        assert(!bits(m).contains(s));
    }
    lemma_count_from_missing(m, 0, s);
    lemma_count_from_popcount(m, 0);
    lemma_shift_halves(m, 0);
    lemma_pext_from_below(occ, m, 0);
    let c = popcount(m);
    vstd::bits::lemma_u64_pow2_no_overflow(c);
    vstd::bits::lemma_u64_shl_is_mul(1u64, c as u64);
}

} // verus!
