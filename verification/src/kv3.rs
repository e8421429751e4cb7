//! KV3 headers: the encoding and format a KV3 document declares.
use vstd::prelude::*;
use vstd::string::StringExecFns;

pub mod kv3_text;

verus! {

/// Generic format for arbitrary data, with no assumptions about how the data will be used
pub const FMT_GENERIC: u128 = 0x7412167c_06e9_4698_aff2_e63eb59037e7u128;

/// Automatic binary encoding selection. Chooses the best binary encoding at write time
pub const ENC_BIN_AUTO: u128 = 0x6eb109e6_6b85_4583_a312_703a6e04068cu128;

/// Block-compressed binary encoding using Valve's custom LZ77-style block compression.
pub const ENC_BIN_BLK_COMP: u128 = 0x15191a46_151c_1f1c_171b_151c11171f12u128;

/// LZ4-compressed binary encoding
pub const ENC_BIN_LZ4: u128 = 0x6847248a_63a1_4f5c_a197_53806fd9b119u128;

/// Zstandard-compressed binary encoding
pub const ENC_BIN_ZSTD: u128 = 0x6f62a000_fef0_4305_a35f_042346b1db29u128;

/// Uncompressed binary encoding. Data is stored as-is with a string table and typed values
pub const ENC_BIN: u128 = 0x1b860500_f7d8_40c1_ad82_75a48267e714u128;

/// Human-readable text encoding with an XML-style comment header
pub const ENC_EXT: u128 = 0xe21c7f3c_8a33_41c5_9977_a76d3a32aa0du128;

pub const FLAG_RESOURCE: &'static str = "resource";

pub const FLAG_RESOURCE_NAME: &'static str = "resourcename";

pub const FLAG_PANORAMA: &'static str = "panorama";

pub const FLAG_SOUNDEVENT: &'static str = "soundevent";

pub const FLAG_SUBCLASS: &'static str = "subclass";

/// A named, versioned identifier: `name:version{uuid}`. The UUID is held as
/// its 128-bit value, most significant byte first (as `Uuid::as_u128` gives it).
#[derive(Debug, Clone)]
pub struct Kv3Id {
    pub name: String,
    pub id: u128,
}

/// Only applies to KV3
#[derive(Debug, Clone)]
pub struct KvHeader {
    pub encoding: Kv3Id,
    pub format: Kv3Id,
}

/// The lowercase hexadecimal digit for `d < 16`.
pub open spec fn hex_digit(d: int) -> char {
    if d < 10 {
        (48 + d) as char
    } else {
        (87 + d) as char
    }
}

/// The `k`-th hexadecimal digit of `v`, counting from the most significant.
pub open spec fn nibble(v: u128, k: int) -> int {
    (v as int / vstd::arithmetic::power2::pow2((4 * (31 - k)) as nat) as int) % 16
}

/// The number of dashes that stand before position `j` of a hyphenated UUID.
pub open spec fn dashes_before(j: int) -> int {
    (if j > 8 { 1int } else { 0int }) + (if j > 13 { 1int } else { 0int }) + (if j > 18 { 1int } else { 0int }) + (if j > 23 { 1int } else { 0int })
}

/// The hyphenated form of a UUID: its 32 lowercase hexadecimal digits in
/// groups of 8, 4, 4, 4 and 12, joined by `-`.
pub open spec fn uuid_text(v: u128) -> Seq<char> {
    Seq::new(
        36,
        |j: int|
            if j == 8 || j == 13 || j == 18 || j == 23 {
                '-'
            } else {
                hex_digit(nibble(v, j - dashes_before(j)))
            },
    )
}

/// `Uuid::from_u128(v).to_string()`: the hyphenated lowercase form of the UUID
/// whose bytes are those of `v`, most significant first.
#[verifier::external_body]
fn uuid_hyphenated(v: u128) -> (s: String)
    ensures
        s@ == uuid_text(v),
{
    uuid::Uuid::from_u128(v).to_string()
}

/// How an identifier is written: `name:version{uuid}`.
pub open spec fn kv3_id_text(name: Seq<char>, id: u128) -> Seq<char> {
    name + ":version{"@ + uuid_text(id) + "}"@
}

impl Kv3Id {
    /// The identifier as text: `name:version{uuid}`.
    pub fn to_text(&self) -> (s: String)
        ensures
            s@ == kv3_id_text(self.name@, self.id),
    {
        let mut s = self.name.clone();
        s.append(":version{");
        let u = uuid_hyphenated(self.id);
        s.append(u.as_str());
        s.append("}");
        s
    }
}

}
