//! The units and their SI prefixes: names, dimensions and scales to SI base
//! units. Scales and factors are held as the bit patterns of IEEE doubles.
use crate::text::text_eq;
use vstd::prelude::*;

verus! {

/// Exponents over the SI base dimensions: metre, kilogram, second, ampere,
/// kelvin, mole, candela and radian.
#[derive(Debug, Clone, Copy, PartialEq, Eq, Structural)]
pub struct Dims {
    pub m: i32,
    pub kg: i32,
    pub s: i32,
    pub a: i32,
    pub k: i32,
    pub mol: i32,
    pub cd: i32,
    pub rad: i32,
}

/// A unit of the table.
#[derive(Debug, Clone, Copy, PartialEq, Eq, Structural)]
pub struct UnitDef {
    pub dims: Dims,
    /// The scale to SI base units.
    pub scale: u64,
}

pub open spec fn unit(
    m: int,
    kg: int,
    s: int,
    a: int,
    k: int,
    mol: int,
    cd: int,
    rad: int,
    scale: u64,
) -> UnitDef {
    UnitDef {
        dims: Dims {
            m: m as i32,
            kg: kg as i32,
            s: s as i32,
            a: a as i32,
            k: k as i32,
            mol: mol as i32,
            cd: cd as i32,
            rad: rad as i32,
        },
        scale,
    }
}

fn new_unit(
    m: i32,
    kg: i32,
    s: i32,
    a: i32,
    k: i32,
    mol: i32,
    cd: i32,
    rad: i32,
    scale: u64,
) -> (r: UnitDef)
    ensures
        r == unit(
            m as int,
            kg as int,
            s as int,
            a as int,
            k as int,
            mol as int,
            cd as int,
            rad as int,
            scale,
        ),
{
    UnitDef { dims: Dims { m, kg, s, a, k, mol, cd, rad }, scale }
}

/// The unit of a name in the table, without a prefix.
pub open spec fn unit_named(name: Seq<char>) -> Option<UnitDef> {
    if name == "pct"@ {
        Some(unit(0, 0, 0, 0, 0, 0, 0, 0, 0x3f84_7ae1_47ae_147b))
    } else if name == "%"@ {
        Some(unit(0, 0, 0, 0, 0, 0, 0, 0, 0x3f84_7ae1_47ae_147b))
    } else if name == "ppm"@ {
        Some(unit(0, 0, 0, 0, 0, 0, 0, 0, 0x3eb0_c6f7_a0b5_ed8d))
    } else if name == "m"@ {
        Some(unit(1, 0, 0, 0, 0, 0, 0, 0, 0x3ff0_0000_0000_0000))
    } else if name == "kg"@ {
        Some(unit(0, 1, 0, 0, 0, 0, 0, 0, 0x3ff0_0000_0000_0000))
    } else if name == "s"@ {
        Some(unit(0, 0, 1, 0, 0, 0, 0, 0, 0x3ff0_0000_0000_0000))
    } else if name == "A"@ {
        Some(unit(0, 0, 0, 1, 0, 0, 0, 0, 0x3ff0_0000_0000_0000))
    } else if name == "K"@ {
        Some(unit(0, 0, 0, 0, 1, 0, 0, 0, 0x3ff0_0000_0000_0000))
    } else if name == "mol"@ {
        Some(unit(0, 0, 0, 0, 0, 1, 0, 0, 0x3ff0_0000_0000_0000))
    } else if name == "cd"@ {
        Some(unit(0, 0, 0, 0, 0, 0, 1, 0, 0x3ff0_0000_0000_0000))
    } else if name == "rad"@ {
        Some(unit(0, 0, 0, 0, 0, 0, 0, 1, 0x3ff0_0000_0000_0000))
    } else if name == "km"@ {
        Some(unit(1, 0, 0, 0, 0, 0, 0, 0, 0x408f_4000_0000_0000))
    } else if name == "cm"@ {
        Some(unit(1, 0, 0, 0, 0, 0, 0, 0, 0x3f84_7ae1_47ae_147b))
    } else if name == "mm"@ {
        Some(unit(1, 0, 0, 0, 0, 0, 0, 0, 0x3f50_624d_d2f1_a9fc))
    } else if name == "um"@ {
        Some(unit(1, 0, 0, 0, 0, 0, 0, 0, 0x3eb0_c6f7_a0b5_ed8d))
    } else if name == "µm"@ {
        Some(unit(1, 0, 0, 0, 0, 0, 0, 0, 0x3eb0_c6f7_a0b5_ed8d))
    } else if name == "nm"@ {
        Some(unit(1, 0, 0, 0, 0, 0, 0, 0, 0x3e11_2e0b_e826_d695))
    } else if name == "pm"@ {
        Some(unit(1, 0, 0, 0, 0, 0, 0, 0, 0x3d71_9799_812d_ea11))
    } else if name == "inch"@ {
        Some(unit(1, 0, 0, 0, 0, 0, 0, 0, 0x3f9a_0275_2546_0aa6))
    } else if name == "ft"@ {
        Some(unit(1, 0, 0, 0, 0, 0, 0, 0, 0x3fd3_81d7_dbf4_87fd))
    } else if name == "mi"@ {
        Some(unit(1, 0, 0, 0, 0, 0, 0, 0, 0x4099_2560_4189_374c))
    } else if name == "au"@ {
        Some(unit(1, 0, 0, 0, 0, 0, 0, 0, 0x4241_6a5d_2d36_0000))
    } else if name == "ly"@ {
        Some(unit(1, 0, 0, 0, 0, 0, 0, 0, 0x4340_ce3d_fb91_2360))
    } else if name == "pc"@ {
        Some(unit(1, 0, 0, 0, 0, 0, 0, 0, 0x435b_6804_be57_27a2))
    } else if name == "kpc"@ {
        Some(unit(1, 0, 0, 0, 0, 0, 0, 0, 0x43fa_c394_a1e1_1cb4))
    } else if name == "Mpc"@ {
        Some(unit(1, 0, 0, 0, 0, 0, 0, 0, 0x449a_22ff_2615_d608))
    } else if name == "g"@ {
        Some(unit(0, 1, 0, 0, 0, 0, 0, 0, 0x3f50_624d_d2f1_a9fc))
    } else if name == "mg"@ {
        Some(unit(0, 1, 0, 0, 0, 0, 0, 0, 0x3eb0_c6f7_a0b5_ed8d))
    } else if name == "ug"@ {
        Some(unit(0, 1, 0, 0, 0, 0, 0, 0, 0x3e11_2e0b_e826_d695))
    } else if name == "µg"@ {
        Some(unit(0, 1, 0, 0, 0, 0, 0, 0, 0x3e11_2e0b_e826_d695))
    } else if name == "t"@ {
        Some(unit(0, 1, 0, 0, 0, 0, 0, 0, 0x408f_4000_0000_0000))
    } else if name == "ms"@ {
        Some(unit(0, 0, 1, 0, 0, 0, 0, 0, 0x3f50_624d_d2f1_a9fc))
    } else if name == "us"@ {
        Some(unit(0, 0, 1, 0, 0, 0, 0, 0, 0x3eb0_c6f7_a0b5_ed8d))
    } else if name == "ns"@ {
        Some(unit(0, 0, 1, 0, 0, 0, 0, 0, 0x3e11_2e0b_e826_d695))
    } else if name == "min"@ {
        Some(unit(0, 0, 1, 0, 0, 0, 0, 0, 0x404e_0000_0000_0000))
    } else if name == "h"@ {
        Some(unit(0, 0, 1, 0, 0, 0, 0, 0, 0x40ac_2000_0000_0000))
    } else if name == "hr"@ {
        Some(unit(0, 0, 1, 0, 0, 0, 0, 0, 0x40ac_2000_0000_0000))
    } else if name == "d"@ {
        Some(unit(0, 0, 1, 0, 0, 0, 0, 0, 0x40f5_1800_0000_0000))
    } else if name == "day"@ {
        Some(unit(0, 0, 1, 0, 0, 0, 0, 0, 0x40f5_1800_0000_0000))
    } else if name == "yr"@ {
        Some(unit(0, 0, 1, 0, 0, 0, 0, 0, 0x417e_187e_0000_0000))
    } else if name == "Hz"@ {
        Some(unit(0, 0, -1, 0, 0, 0, 0, 0, 0x3ff0_0000_0000_0000))
    } else if name == "N"@ {
        Some(unit(1, 1, -2, 0, 0, 0, 0, 0, 0x3ff0_0000_0000_0000))
    } else if name == "J"@ {
        Some(unit(2, 1, -2, 0, 0, 0, 0, 0, 0x3ff0_0000_0000_0000))
    } else if name == "W"@ {
        Some(unit(2, 1, -3, 0, 0, 0, 0, 0, 0x3ff0_0000_0000_0000))
    } else if name == "Pa"@ {
        Some(unit(-1, 1, -2, 0, 0, 0, 0, 0, 0x3ff0_0000_0000_0000))
    } else if name == "T"@ {
        Some(unit(0, 1, -2, -1, 0, 0, 0, 0, 0x3ff0_0000_0000_0000))
    } else if name == "V"@ {
        Some(unit(2, 1, -3, -1, 0, 0, 0, 0, 0x3ff0_0000_0000_0000))
    } else if name == "Wb"@ {
        Some(unit(2, 1, -2, -1, 0, 0, 0, 0, 0x3ff0_0000_0000_0000))
    } else if name == "C"@ {
        Some(unit(0, 0, 1, 1, 0, 0, 0, 0, 0x3ff0_0000_0000_0000))
    } else if name == "F"@ {
        Some(unit(-2, -1, 4, 2, 0, 0, 0, 0, 0x3ff0_0000_0000_0000))
    } else if name == "Jy"@ {
        Some(unit(0, 1, -2, 0, 0, 0, 0, 0, 0x3a88_c240_c4ae_cb14))
    } else if name == "deg"@ {
        Some(unit(0, 0, 0, 0, 0, 0, 0, 1, 0x3f91_df46_a252_9d39))
    } else if name == "arcmin"@ {
        Some(unit(0, 0, 0, 0, 0, 0, 0, 1, 0x3f33_104b_57cf_96a3))
    } else if name == "arcsec"@ {
        Some(unit(0, 0, 0, 0, 0, 0, 0, 1, 0x3ed4_55a5_b2ff_8f9d))
    } else if name == "mas"@ {
        Some(unit(0, 0, 0, 0, 0, 0, 0, 1, 0x3e34_d295_322c_9b40))
    } else {
        None
    }
}

/// Look up a plain unit name (no prefix) in the table.
pub fn lookup(name: &str) -> (r: Option<UnitDef>)
    ensures
        r == unit_named(name@),
{
    if text_eq(name, "pct") {
        Some(new_unit(0, 0, 0, 0, 0, 0, 0, 0, 0x3f84_7ae1_47ae_147b))
    } else if text_eq(name, "%") {
        Some(new_unit(0, 0, 0, 0, 0, 0, 0, 0, 0x3f84_7ae1_47ae_147b))
    } else if text_eq(name, "ppm") {
        Some(new_unit(0, 0, 0, 0, 0, 0, 0, 0, 0x3eb0_c6f7_a0b5_ed8d))
    } else if text_eq(name, "m") {
        Some(new_unit(1, 0, 0, 0, 0, 0, 0, 0, 0x3ff0_0000_0000_0000))
    } else if text_eq(name, "kg") {
        Some(new_unit(0, 1, 0, 0, 0, 0, 0, 0, 0x3ff0_0000_0000_0000))
    } else if text_eq(name, "s") {
        Some(new_unit(0, 0, 1, 0, 0, 0, 0, 0, 0x3ff0_0000_0000_0000))
    } else if text_eq(name, "A") {
        Some(new_unit(0, 0, 0, 1, 0, 0, 0, 0, 0x3ff0_0000_0000_0000))
    } else if text_eq(name, "K") {
        Some(new_unit(0, 0, 0, 0, 1, 0, 0, 0, 0x3ff0_0000_0000_0000))
    } else if text_eq(name, "mol") {
        Some(new_unit(0, 0, 0, 0, 0, 1, 0, 0, 0x3ff0_0000_0000_0000))
    } else if text_eq(name, "cd") {
        Some(new_unit(0, 0, 0, 0, 0, 0, 1, 0, 0x3ff0_0000_0000_0000))
    } else if text_eq(name, "rad") {
        Some(new_unit(0, 0, 0, 0, 0, 0, 0, 1, 0x3ff0_0000_0000_0000))
    } else if text_eq(name, "km") {
        Some(new_unit(1, 0, 0, 0, 0, 0, 0, 0, 0x408f_4000_0000_0000))
    } else if text_eq(name, "cm") {
        Some(new_unit(1, 0, 0, 0, 0, 0, 0, 0, 0x3f84_7ae1_47ae_147b))
    } else if text_eq(name, "mm") {
        Some(new_unit(1, 0, 0, 0, 0, 0, 0, 0, 0x3f50_624d_d2f1_a9fc))
    } else if text_eq(name, "um") {
        Some(new_unit(1, 0, 0, 0, 0, 0, 0, 0, 0x3eb0_c6f7_a0b5_ed8d))
    } else if text_eq(name, "µm") {
        Some(new_unit(1, 0, 0, 0, 0, 0, 0, 0, 0x3eb0_c6f7_a0b5_ed8d))
    } else if text_eq(name, "nm") {
        Some(new_unit(1, 0, 0, 0, 0, 0, 0, 0, 0x3e11_2e0b_e826_d695))
    } else if text_eq(name, "pm") {
        Some(new_unit(1, 0, 0, 0, 0, 0, 0, 0, 0x3d71_9799_812d_ea11))
    } else if text_eq(name, "inch") {
        Some(new_unit(1, 0, 0, 0, 0, 0, 0, 0, 0x3f9a_0275_2546_0aa6))
    } else if text_eq(name, "ft") {
        Some(new_unit(1, 0, 0, 0, 0, 0, 0, 0, 0x3fd3_81d7_dbf4_87fd))
    } else if text_eq(name, "mi") {
        Some(new_unit(1, 0, 0, 0, 0, 0, 0, 0, 0x4099_2560_4189_374c))
    } else if text_eq(name, "au") {
        Some(new_unit(1, 0, 0, 0, 0, 0, 0, 0, 0x4241_6a5d_2d36_0000))
    } else if text_eq(name, "ly") {
        Some(new_unit(1, 0, 0, 0, 0, 0, 0, 0, 0x4340_ce3d_fb91_2360))
    } else if text_eq(name, "pc") {
        Some(new_unit(1, 0, 0, 0, 0, 0, 0, 0, 0x435b_6804_be57_27a2))
    } else if text_eq(name, "kpc") {
        Some(new_unit(1, 0, 0, 0, 0, 0, 0, 0, 0x43fa_c394_a1e1_1cb4))
    } else if text_eq(name, "Mpc") {
        Some(new_unit(1, 0, 0, 0, 0, 0, 0, 0, 0x449a_22ff_2615_d608))
    } else if text_eq(name, "g") {
        Some(new_unit(0, 1, 0, 0, 0, 0, 0, 0, 0x3f50_624d_d2f1_a9fc))
    } else if text_eq(name, "mg") {
        Some(new_unit(0, 1, 0, 0, 0, 0, 0, 0, 0x3eb0_c6f7_a0b5_ed8d))
    } else if text_eq(name, "ug") {
        Some(new_unit(0, 1, 0, 0, 0, 0, 0, 0, 0x3e11_2e0b_e826_d695))
    } else if text_eq(name, "µg") {
        Some(new_unit(0, 1, 0, 0, 0, 0, 0, 0, 0x3e11_2e0b_e826_d695))
    } else if text_eq(name, "t") {
        Some(new_unit(0, 1, 0, 0, 0, 0, 0, 0, 0x408f_4000_0000_0000))
    } else if text_eq(name, "ms") {
        Some(new_unit(0, 0, 1, 0, 0, 0, 0, 0, 0x3f50_624d_d2f1_a9fc))
    } else if text_eq(name, "us") {
        Some(new_unit(0, 0, 1, 0, 0, 0, 0, 0, 0x3eb0_c6f7_a0b5_ed8d))
    } else if text_eq(name, "ns") {
        Some(new_unit(0, 0, 1, 0, 0, 0, 0, 0, 0x3e11_2e0b_e826_d695))
    } else if text_eq(name, "min") {
        Some(new_unit(0, 0, 1, 0, 0, 0, 0, 0, 0x404e_0000_0000_0000))
    } else if text_eq(name, "h") {
        Some(new_unit(0, 0, 1, 0, 0, 0, 0, 0, 0x40ac_2000_0000_0000))
    } else if text_eq(name, "hr") {
        Some(new_unit(0, 0, 1, 0, 0, 0, 0, 0, 0x40ac_2000_0000_0000))
    } else if text_eq(name, "d") {
        Some(new_unit(0, 0, 1, 0, 0, 0, 0, 0, 0x40f5_1800_0000_0000))
    } else if text_eq(name, "day") {
        Some(new_unit(0, 0, 1, 0, 0, 0, 0, 0, 0x40f5_1800_0000_0000))
    } else if text_eq(name, "yr") {
        Some(new_unit(0, 0, 1, 0, 0, 0, 0, 0, 0x417e_187e_0000_0000))
    } else if text_eq(name, "Hz") {
        Some(new_unit(0, 0, -1, 0, 0, 0, 0, 0, 0x3ff0_0000_0000_0000))
    } else if text_eq(name, "N") {
        Some(new_unit(1, 1, -2, 0, 0, 0, 0, 0, 0x3ff0_0000_0000_0000))
    } else if text_eq(name, "J") {
        Some(new_unit(2, 1, -2, 0, 0, 0, 0, 0, 0x3ff0_0000_0000_0000))
    } else if text_eq(name, "W") {
        Some(new_unit(2, 1, -3, 0, 0, 0, 0, 0, 0x3ff0_0000_0000_0000))
    } else if text_eq(name, "Pa") {
        Some(new_unit(-1, 1, -2, 0, 0, 0, 0, 0, 0x3ff0_0000_0000_0000))
    } else if text_eq(name, "T") {
        Some(new_unit(0, 1, -2, -1, 0, 0, 0, 0, 0x3ff0_0000_0000_0000))
    } else if text_eq(name, "V") {
        Some(new_unit(2, 1, -3, -1, 0, 0, 0, 0, 0x3ff0_0000_0000_0000))
    } else if text_eq(name, "Wb") {
        Some(new_unit(2, 1, -2, -1, 0, 0, 0, 0, 0x3ff0_0000_0000_0000))
    } else if text_eq(name, "C") {
        Some(new_unit(0, 0, 1, 1, 0, 0, 0, 0, 0x3ff0_0000_0000_0000))
    } else if text_eq(name, "F") {
        Some(new_unit(-2, -1, 4, 2, 0, 0, 0, 0, 0x3ff0_0000_0000_0000))
    } else if text_eq(name, "Jy") {
        Some(new_unit(0, 1, -2, 0, 0, 0, 0, 0, 0x3a88_c240_c4ae_cb14))
    } else if text_eq(name, "deg") {
        Some(new_unit(0, 0, 0, 0, 0, 0, 0, 1, 0x3f91_df46_a252_9d39))
    } else if text_eq(name, "arcmin") {
        Some(new_unit(0, 0, 0, 0, 0, 0, 0, 1, 0x3f33_104b_57cf_96a3))
    } else if text_eq(name, "arcsec") {
        Some(new_unit(0, 0, 0, 0, 0, 0, 0, 1, 0x3ed4_55a5_b2ff_8f9d))
    } else if text_eq(name, "mas") {
        Some(new_unit(0, 0, 0, 0, 0, 0, 0, 1, 0x3e34_d295_322c_9b40))
    } else {
        None
    }
}

/// The SI prefix `i`: its symbol, its long name and its factor.
pub open spec fn prefix_model(i: int) -> Option<(Seq<char>, Seq<char>, u64)> {
    if i == 0 {
        Some(("da"@, "deca"@, 0x4024_0000_0000_0000))
    } else if i == 1 {
        Some(("Y"@, "yotta"@, 0x44ea_7843_79d9_9db4))
    } else if i == 2 {
        Some(("Z"@, "zetta"@, 0x444b_1ae4_d6e2_ef50))
    } else if i == 3 {
        Some(("E"@, "exa"@, 0x43ab_c16d_674e_c800))
    } else if i == 4 {
        Some(("P"@, "peta"@, 0x430c_6bf5_2634_0000))
    } else if i == 5 {
        Some(("T"@, "tera"@, 0x426d_1a94_a200_0000))
    } else if i == 6 {
        Some(("G"@, "giga"@, 0x41cd_cd65_0000_0000))
    } else if i == 7 {
        Some(("M"@, "mega"@, 0x412e_8480_0000_0000))
    } else if i == 8 {
        Some(("k"@, "kilo"@, 0x408f_4000_0000_0000))
    } else if i == 9 {
        Some(("h"@, "hecto"@, 0x4059_0000_0000_0000))
    } else if i == 10 {
        Some(("d"@, "deci"@, 0x3fb9_9999_9999_999a))
    } else if i == 11 {
        Some(("c"@, "centi"@, 0x3f84_7ae1_47ae_147b))
    } else if i == 12 {
        Some(("m"@, "milli"@, 0x3f50_624d_d2f1_a9fc))
    } else if i == 13 {
        Some(("u"@, "micro"@, 0x3eb0_c6f7_a0b5_ed8d))
    } else if i == 14 {
        Some(("µ"@, "micro"@, 0x3eb0_c6f7_a0b5_ed8d))
    } else if i == 15 {
        Some(("n"@, "nano"@, 0x3e11_2e0b_e826_d695))
    } else if i == 16 {
        Some(("p"@, "pico"@, 0x3d71_9799_812d_ea11))
    } else if i == 17 {
        Some(("f"@, "femto"@, 0x3cd2_03af_9ee7_5616))
    } else if i == 18 {
        Some(("a"@, "atto"@, 0x3c32_725d_d1d2_43ac))
    } else if i == 19 {
        Some(("z"@, "zepto"@, 0x3b92_e3b4_0a0e_9b4f))
    } else if i == 20 {
        Some(("y"@, "yocto"@, 0x3af3_57c2_99a8_8ea7))
    } else {
        None
    }
}

/// The SI prefix `i`, in the order in which they are tried: its symbol, its
/// long name and its factor.
pub fn prefix(i: usize) -> (r: Option<(&'static str, &'static str, u64)>)
    ensures
        match r {
            Some(p) => prefix_model(i as int) == Some((p.0@, p.1@, p.2)),
            None => prefix_model(i as int) is None,
        },
{
    if i == 0 {
        Some(("da", "deca", 0x4024_0000_0000_0000))
    } else if i == 1 {
        Some(("Y", "yotta", 0x44ea_7843_79d9_9db4))
    } else if i == 2 {
        Some(("Z", "zetta", 0x444b_1ae4_d6e2_ef50))
    } else if i == 3 {
        Some(("E", "exa", 0x43ab_c16d_674e_c800))
    } else if i == 4 {
        Some(("P", "peta", 0x430c_6bf5_2634_0000))
    } else if i == 5 {
        Some(("T", "tera", 0x426d_1a94_a200_0000))
    } else if i == 6 {
        Some(("G", "giga", 0x41cd_cd65_0000_0000))
    } else if i == 7 {
        Some(("M", "mega", 0x412e_8480_0000_0000))
    } else if i == 8 {
        Some(("k", "kilo", 0x408f_4000_0000_0000))
    } else if i == 9 {
        Some(("h", "hecto", 0x4059_0000_0000_0000))
    } else if i == 10 {
        Some(("d", "deci", 0x3fb9_9999_9999_999a))
    } else if i == 11 {
        Some(("c", "centi", 0x3f84_7ae1_47ae_147b))
    } else if i == 12 {
        Some(("m", "milli", 0x3f50_624d_d2f1_a9fc))
    } else if i == 13 {
        Some(("u", "micro", 0x3eb0_c6f7_a0b5_ed8d))
    } else if i == 14 {
        Some(("µ", "micro", 0x3eb0_c6f7_a0b5_ed8d))
    } else if i == 15 {
        Some(("n", "nano", 0x3e11_2e0b_e826_d695))
    } else if i == 16 {
        Some(("p", "pico", 0x3d71_9799_812d_ea11))
    } else if i == 17 {
        Some(("f", "femto", 0x3cd2_03af_9ee7_5616))
    } else if i == 18 {
        Some(("a", "atto", 0x3c32_725d_d1d2_43ac))
    } else if i == 19 {
        Some(("z", "zepto", 0x3b92_e3b4_0a0e_9b4f))
    } else if i == 20 {
        Some(("y", "yocto", 0x3af3_57c2_99a8_8ea7))
    } else {
        None
    }
}

/// The English name of a unit: its symbol where it has no other.
pub open spec fn long_name(name: Seq<char>) -> Seq<char> {
    if name == "m"@ {
        "metre"@
    } else if name == "kg"@ {
        "kilogram"@
    } else if name == "s"@ {
        "second"@
    } else if name == "A"@ {
        "ampere"@
    } else if name == "K"@ {
        "kelvin"@
    } else if name == "mol"@ {
        "mole"@
    } else if name == "cd"@ {
        "candela"@
    } else if name == "rad"@ {
        "radian"@
    } else if name == "Hz"@ {
        "hertz"@
    } else if name == "deg"@ {
        "degree"@
    } else if name == "arcmin"@ {
        "arcmin"@
    } else if name == "arcsec"@ {
        "arcsecond"@
    } else if name == "mas"@ {
        "milliarcsecond"@
    } else if name == "Jy"@ {
        "jansky"@
    } else if name == "N"@ {
        "newton"@
    } else if name == "J"@ {
        "joule"@
    } else if name == "W"@ {
        "watt"@
    } else if name == "Pa"@ {
        "pascal"@
    } else if name == "T"@ {
        "tesla"@
    } else if name == "V"@ {
        "volt"@
    } else if name == "Wb"@ {
        "weber"@
    } else if name == "C"@ {
        "coulomb"@
    } else if name == "F"@ {
        "farad"@
    } else if name == "km"@ {
        "kilometer"@
    } else if name == "cm"@ {
        "centimeter"@
    } else if name == "mm"@ {
        "millimeter"@
    } else if name == "um"@ {
        "micrometer"@
    } else if name == "nm"@ {
        "nanometer"@
    } else if name == "mi"@ {
        "mile"@
    } else if name == "inch"@ {
        "inch"@
    } else if name == "ft"@ {
        "foot"@
    } else if name == "au"@ {
        "astronomical unit"@
    } else if name == "ly"@ {
        "light year"@
    } else if name == "pc"@ {
        "parsec"@
    } else if name == "g"@ {
        "gram"@
    } else if name == "t"@ {
        "tonne"@
    } else if name == "min"@ {
        "minute"@
    } else if name == "h"@ {
        "hour"@
    } else if name == "hr"@ {
        "hour"@
    } else if name == "d"@ {
        "day"@
    } else if name == "yr"@ {
        "year"@
    } else if name == "%"@ {
        "percent"@
    } else {
        name
    }
}

/// The long (English) name of a unit for the `units` metadata table
/// (defaults to the symbol).
pub fn unit_long_name(name: &str) -> (r: &str)
    ensures
        r@ == long_name(name@),
{
    if text_eq(name, "m") {
        "metre"
    } else if text_eq(name, "kg") {
        "kilogram"
    } else if text_eq(name, "s") {
        "second"
    } else if text_eq(name, "A") {
        "ampere"
    } else if text_eq(name, "K") {
        "kelvin"
    } else if text_eq(name, "mol") {
        "mole"
    } else if text_eq(name, "cd") {
        "candela"
    } else if text_eq(name, "rad") {
        "radian"
    } else if text_eq(name, "Hz") {
        "hertz"
    } else if text_eq(name, "deg") {
        "degree"
    } else if text_eq(name, "arcmin") {
        "arcmin"
    } else if text_eq(name, "arcsec") {
        "arcsecond"
    } else if text_eq(name, "mas") {
        "milliarcsecond"
    } else if text_eq(name, "Jy") {
        "jansky"
    } else if text_eq(name, "N") {
        "newton"
    } else if text_eq(name, "J") {
        "joule"
    } else if text_eq(name, "W") {
        "watt"
    } else if text_eq(name, "Pa") {
        "pascal"
    } else if text_eq(name, "T") {
        "tesla"
    } else if text_eq(name, "V") {
        "volt"
    } else if text_eq(name, "Wb") {
        "weber"
    } else if text_eq(name, "C") {
        "coulomb"
    } else if text_eq(name, "F") {
        "farad"
    } else if text_eq(name, "km") {
        "kilometer"
    } else if text_eq(name, "cm") {
        "centimeter"
    } else if text_eq(name, "mm") {
        "millimeter"
    } else if text_eq(name, "um") {
        "micrometer"
    } else if text_eq(name, "nm") {
        "nanometer"
    } else if text_eq(name, "mi") {
        "mile"
    } else if text_eq(name, "inch") {
        "inch"
    } else if text_eq(name, "ft") {
        "foot"
    } else if text_eq(name, "au") {
        "astronomical unit"
    } else if text_eq(name, "ly") {
        "light year"
    } else if text_eq(name, "pc") {
        "parsec"
    } else if text_eq(name, "g") {
        "gram"
    } else if text_eq(name, "t") {
        "tonne"
    } else if text_eq(name, "min") {
        "minute"
    } else if text_eq(name, "h") {
        "hour"
    } else if text_eq(name, "hr") {
        "hour"
    } else if text_eq(name, "d") {
        "day"
    } else if text_eq(name, "yr") {
        "year"
    } else if text_eq(name, "%") {
        "percent"
    } else {
        name
    }
}

/// A number to a power.
pub open spec fn power(b: int, n: nat) -> int
    decreases n,
{
    if n == 0 {
        1
    } else {
        b * power(b, (n - 1) as nat)
    }
}

proof fn lemma_power_sum(b: int, m: nat, n: nat)
    ensures
        power(b, m + n) == power(b, m) * power(b, n),
    decreases m,
{
    if m > 0 {
        lemma_power_sum(b, (m - 1) as nat, n);
        let x = power(b, (m - 1) as nat);
        let y = power(b, n);
        assert(b * (x * y) == (b * x) * y) by (nonlinear_arith);
    } else {
        assert(1 * power(b, n) == power(b, n));
    }
}

/// The fraction of a positive normal double, as a whole number, leading digit
/// included.
pub open spec fn fraction(bits: u64) -> int {
    0x10_0000_0000_0000 + bits as int % 0x10_0000_0000_0000
}

/// The power of two that the fraction of a double is multiplied by.
pub open spec fn binary_exponent(bits: u64) -> int {
    bits as int / 0x10_0000_0000_0000 - 1075
}

/// A power, or 1 for a negative exponent.
pub open spec fn upper(b: int, n: int) -> int {
    if n < 0 {
        1
    } else {
        power(b, n as nat)
    }
}

/// A double differs from a power of ten by no more than half a unit in its last
/// place.
pub open spec fn nearest_power(bits: u64, ten: int) -> bool {
    let two = binary_exponent(bits);
    let over = upper(10, ten) * upper(2, -two);
    let under = upper(10, -ten) * upper(2, two);
    -under <= 2 * (fraction(bits) * under - over) <= under
}

/// Powers with the sum of two exponents.
proof fn lemma_times(b: int, m: nat, n: nat, x: int, y: int)
    requires
        power(b, m) == x,
        power(b, n) == y,
    ensures
        power(b, m + n) == x * y,
{
    lemma_power_sum(b, m, n);
}

proof fn lemma_nearest(bits: u64, ten: int, f: int, two: int, a: int, b: int, c: int, d: int)
    requires
        fraction(bits) == f,
        binary_exponent(bits) == two,
        upper(10, ten) == a,
        upper(2, -two) == b,
        upper(10, -ten) == c,
        upper(2, two) == d,
        -(c * d) <= 2 * (f * (c * d) - a * b) <= c * d,
    ensures
        nearest_power(bits, ten),
{
}

/// A prefix has this symbol, and its factor is this power of ten, rounded.
pub open spec fn stands_for(i: int, symbol: Seq<char>, ten: int) -> bool {
    prefix_model(i) matches Some((s, _, factor)) && s == symbol && nearest_power(factor, ten)
}

proof fn lemma_powers()
    ensures
        power(10, 1) == 10,
        power(10, 2) == 100,
        power(10, 3) == 1000,
        power(10, 6) == 1000000,
        power(10, 9) == 1000000000,
        power(10, 12) == 1000000000000,
        power(10, 15) == 1000000000000000,
        power(10, 18) == 1000000000000000000,
        power(10, 21) == 1000000000000000000000,
        power(10, 24) == 1000000000000000000000000,
        power(2, 3) == 0x8,
        power(2, 7) == 0x80,
        power(2, 13) == 0x2000,
        power(2, 17) == 0x2_0000,
        power(2, 23) == 0x80_0000,
        power(2, 27) == 0x800_0000,
        power(2, 33) == 0x2_0000_0000,
        power(2, 43) == 0x800_0000_0000,
        power(2, 46) == 0x4000_0000_0000,
        power(2, 49) == 0x2_0000_0000_0000,
        power(2, 56) == 0x100_0000_0000_0000,
        power(2, 59) == 0x800_0000_0000_0000,
        power(2, 62) == 0x4000_0000_0000_0000,
        power(2, 72) == 0x100_0000_0000_0000_0000,
        power(2, 82) == 0x4_0000_0000_0000_0000_0000,
        power(2, 92) == 0x1000_0000_0000_0000_0000_0000,
        power(2, 102) == 0x40_0000_0000_0000_0000_0000_0000,
        power(2, 112) == 0x1_0000_0000_0000_0000_0000_0000_0000,
        power(2, 122) == 0x1_0000_0000_0000_0000int * 0x400_0000_0000_0000,
        power(2, 132) == 0x1_0000_0000_0000_0000int * 0x10_0000_0000_0000_0000,
{
    reveal_with_fuel(power, 2);
    lemma_times(10, 1, 1, 10, 10);
    lemma_times(10, 2, 1, 100, 10);
    lemma_times(10, 2, 2, 100, 100);
    lemma_times(10, 4, 2, 10000, 100);
    lemma_times(10, 4, 4, 10000, 10000);
    lemma_times(10, 8, 1, 100000000, 10);
    lemma_times(10, 8, 4, 100000000, 10000);
    lemma_times(10, 4, 3, 10000, 1000);
    lemma_times(10, 8, 7, 100000000, 10000000);
    lemma_times(10, 8, 8, 100000000, 100000000);
    lemma_times(10, 16, 2, 10000000000000000, 100);
    lemma_times(10, 4, 1, 10000, 10);
    lemma_times(10, 16, 5, 10000000000000000, 100000);
    lemma_times(10, 16, 8, 10000000000000000, 100000000);
    lemma_times(2, 1, 1, 0x2, 0x2);
    lemma_times(2, 2, 1, 0x4, 0x2);
    lemma_times(2, 2, 2, 0x4, 0x4);
    lemma_times(2, 4, 3, 0x10, 0x8);
    lemma_times(2, 4, 4, 0x10, 0x10);
    lemma_times(2, 4, 1, 0x10, 0x2);
    lemma_times(2, 8, 5, 0x100, 0x20);
    lemma_times(2, 8, 8, 0x100, 0x100);
    lemma_times(2, 16, 1, 0x1_0000, 0x2);
    lemma_times(2, 16, 7, 0x1_0000, 0x80);
    lemma_times(2, 8, 3, 0x100, 0x8);
    lemma_times(2, 16, 11, 0x1_0000, 0x800);
    lemma_times(2, 16, 16, 0x1_0000, 0x1_0000);
    lemma_times(2, 32, 1, 0x1_0000_0000, 0x2);
    lemma_times(2, 32, 11, 0x1_0000_0000, 0x800);
    lemma_times(2, 4, 2, 0x10, 0x4);
    lemma_times(2, 8, 6, 0x100, 0x40);
    lemma_times(2, 32, 14, 0x1_0000_0000, 0x4000);
    lemma_times(2, 32, 17, 0x1_0000_0000, 0x2_0000);
    lemma_times(2, 16, 8, 0x1_0000, 0x100);
    lemma_times(2, 32, 24, 0x1_0000_0000, 0x100_0000);
    lemma_times(2, 32, 27, 0x1_0000_0000, 0x800_0000);
    lemma_times(2, 16, 14, 0x1_0000, 0x4000);
    lemma_times(2, 32, 30, 0x1_0000_0000, 0x4000_0000);
    lemma_times(2, 32, 32, 0x1_0000_0000, 0x1_0000_0000);
    lemma_times(2, 64, 8, 0x1_0000_0000_0000_0000, 0x100);
    lemma_times(2, 16, 2, 0x1_0000, 0x4);
    lemma_times(2, 64, 18, 0x1_0000_0000_0000_0000, 0x4_0000);
    lemma_times(2, 8, 4, 0x100, 0x10);
    lemma_times(2, 16, 12, 0x1_0000, 0x1000);
    lemma_times(2, 64, 28, 0x1_0000_0000_0000_0000, 0x1000_0000);
    lemma_times(2, 32, 6, 0x1_0000_0000, 0x40);
    lemma_times(2, 64, 38, 0x1_0000_0000_0000_0000, 0x40_0000_0000);
    lemma_times(2, 32, 16, 0x1_0000_0000, 0x1_0000);
    lemma_times(2, 64, 48, 0x1_0000_0000_0000_0000, 0x1_0000_0000_0000);
    lemma_times(2, 8, 2, 0x100, 0x4);
    lemma_times(2, 16, 10, 0x1_0000, 0x400);
    lemma_times(2, 32, 26, 0x1_0000_0000, 0x400_0000);
    lemma_times(2, 64, 58, 0x1_0000_0000_0000_0000, 0x400_0000_0000_0000);
    lemma_times(2, 64, 64, 0x1_0000_0000_0000_0000, 0x1_0000_0000_0000_0000);
    lemma_times(2, 128, 4, 0x1_0000_0000_0000_0000int * 0x1_0000_0000_0000_0000, 0x10);
}

/// The prefixes stand for powers of ten.
#[verifier::spinoff_prover]
#[verifier::rlimit(40)]
pub proof fn law_prefix_factors()
    ensures
        stands_for(0, "da"@, 1),
        stands_for(1, "Y"@, 24),
        stands_for(2, "Z"@, 21),
        stands_for(3, "E"@, 18),
        stands_for(4, "P"@, 15),
        stands_for(5, "T"@, 12),
        stands_for(6, "G"@, 9),
        stands_for(7, "M"@, 6),
        stands_for(8, "k"@, 3),
        stands_for(9, "h"@, 2),
        stands_for(10, "d"@, -1),
        stands_for(11, "c"@, -2),
        stands_for(12, "m"@, -3),
        stands_for(13, "u"@, -6),
        stands_for(14, "µ"@, -6),
        stands_for(15, "n"@, -9),
        stands_for(16, "p"@, -12),
        stands_for(17, "f"@, -15),
        stands_for(18, "a"@, -18),
        stands_for(19, "z"@, -21),
        stands_for(20, "y"@, -24),
        forall|i: int| i < 0 || i > 20 ==> (#[trigger] prefix_model(i)) is None,
{
    lemma_powers();
    lemma_nearest(
        0x4024_0000_0000_0000,
        1,
        0x14_0000_0000_0000,
        -49,
        10,
        0x2_0000_0000_0000,
        1,
        1,
    );
    lemma_nearest(
        0x44ea_7843_79d9_9db4,
        24,
        0x1a_7843_79d9_9db4,
        27,
        1000000000000000000000000,
        1,
        1,
        0x800_0000,
    );
    lemma_nearest(
        0x444b_1ae4_d6e2_ef50,
        21,
        0x1b_1ae4_d6e2_ef50,
        17,
        1000000000000000000000,
        1,
        1,
        0x2_0000,
    );
    lemma_nearest(
        0x43ab_c16d_674e_c800,
        18,
        0x1b_c16d_674e_c800,
        7,
        1000000000000000000,
        1,
        1,
        0x80,
    );
    lemma_nearest(
        0x430c_6bf5_2634_0000,
        15,
        0x1c_6bf5_2634_0000,
        -3,
        1000000000000000,
        0x8,
        1,
        1,
    );
    lemma_nearest(
        0x426d_1a94_a200_0000,
        12,
        0x1d_1a94_a200_0000,
        -13,
        1000000000000,
        0x2000,
        1,
        1,
    );
    lemma_nearest(
        0x41cd_cd65_0000_0000,
        9,
        0x1d_cd65_0000_0000,
        -23,
        1000000000,
        0x80_0000,
        1,
        1,
    );
    lemma_nearest(
        0x412e_8480_0000_0000,
        6,
        0x1e_8480_0000_0000,
        -33,
        1000000,
        0x2_0000_0000,
        1,
        1,
    );
    lemma_nearest(
        0x408f_4000_0000_0000,
        3,
        0x1f_4000_0000_0000,
        -43,
        1000,
        0x800_0000_0000,
        1,
        1,
    );
    lemma_nearest(
        0x4059_0000_0000_0000,
        2,
        0x19_0000_0000_0000,
        -46,
        100,
        0x4000_0000_0000,
        1,
        1,
    );
    lemma_nearest(
        0x3fb9_9999_9999_999a,
        -1,
        0x19_9999_9999_999a,
        -56,
        1,
        0x100_0000_0000_0000,
        10,
        1,
    );
    lemma_nearest(
        0x3f84_7ae1_47ae_147b,
        -2,
        0x14_7ae1_47ae_147b,
        -59,
        1,
        0x800_0000_0000_0000,
        100,
        1,
    );
    lemma_nearest(
        0x3f50_624d_d2f1_a9fc,
        -3,
        0x10_624d_d2f1_a9fc,
        -62,
        1,
        0x4000_0000_0000_0000,
        1000,
        1,
    );
    lemma_nearest(
        0x3eb0_c6f7_a0b5_ed8d,
        -6,
        0x10_c6f7_a0b5_ed8d,
        -72,
        1,
        0x100_0000_0000_0000_0000,
        1000000,
        1,
    );
    lemma_nearest(
        0x3eb0_c6f7_a0b5_ed8d,
        -6,
        0x10_c6f7_a0b5_ed8d,
        -72,
        1,
        0x100_0000_0000_0000_0000,
        1000000,
        1,
    );
    lemma_nearest(
        0x3e11_2e0b_e826_d695,
        -9,
        0x11_2e0b_e826_d695,
        -82,
        1,
        0x4_0000_0000_0000_0000_0000,
        1000000000,
        1,
    );
    lemma_nearest(
        0x3d71_9799_812d_ea11,
        -12,
        0x11_9799_812d_ea11,
        -92,
        1,
        0x1000_0000_0000_0000_0000_0000,
        1000000000000,
        1,
    );
    lemma_nearest(
        0x3cd2_03af_9ee7_5616,
        -15,
        0x12_03af_9ee7_5616,
        -102,
        1,
        0x40_0000_0000_0000_0000_0000_0000,
        1000000000000000,
        1,
    );
    lemma_nearest(
        0x3c32_725d_d1d2_43ac,
        -18,
        0x12_725d_d1d2_43ac,
        -112,
        1,
        0x1_0000_0000_0000_0000_0000_0000_0000,
        1000000000000000000,
        1,
    );
    lemma_nearest(
        0x3b92_e3b4_0a0e_9b4f,
        -21,
        0x12_e3b4_0a0e_9b4f,
        -122,
        1,
        0x1_0000_0000_0000_0000int * 0x400_0000_0000_0000,
        1000000000000000000000,
        1,
    );
    lemma_nearest(
        0x3af3_57c2_99a8_8ea7,
        -24,
        0x13_57c2_99a8_8ea7,
        -132,
        1,
        0x1_0000_0000_0000_0000int * 0x10_0000_0000_0000_0000,
        1000000000000000000000000,
        1,
    );
}

proof fn lemma_names()
    ensures
        unit_named("m"@) == Some(unit(1, 0, 0, 0, 0, 0, 0, 0, 0x3ff0_0000_0000_0000)),
        unit_named("kg"@) == Some(unit(0, 1, 0, 0, 0, 0, 0, 0, 0x3ff0_0000_0000_0000)),
        unit_named("s"@) == Some(unit(0, 0, 1, 0, 0, 0, 0, 0, 0x3ff0_0000_0000_0000)),
        unit_named("A"@) == Some(unit(0, 0, 0, 1, 0, 0, 0, 0, 0x3ff0_0000_0000_0000)),
        unit_named("rad"@) == Some(unit(0, 0, 0, 0, 0, 0, 0, 1, 0x3ff0_0000_0000_0000)),
        unit_named("min"@) == Some(unit(0, 0, 1, 0, 0, 0, 0, 0, 0x404e_0000_0000_0000)),
        unit_named("h"@) == Some(unit(0, 0, 1, 0, 0, 0, 0, 0, 0x40ac_2000_0000_0000)),
        unit_named("hr"@) == Some(unit(0, 0, 1, 0, 0, 0, 0, 0, 0x40ac_2000_0000_0000)),
        unit_named("d"@) == Some(unit(0, 0, 1, 0, 0, 0, 0, 0, 0x40f5_1800_0000_0000)),
        unit_named("day"@) == Some(unit(0, 0, 1, 0, 0, 0, 0, 0, 0x40f5_1800_0000_0000)),
        unit_named("yr"@) == Some(unit(0, 0, 1, 0, 0, 0, 0, 0, 0x417e_187e_0000_0000)),
        unit_named("Hz"@) == Some(unit(0, 0, -1, 0, 0, 0, 0, 0, 0x3ff0_0000_0000_0000)),
        unit_named("N"@) == Some(unit(1, 1, -2, 0, 0, 0, 0, 0, 0x3ff0_0000_0000_0000)),
        unit_named("J"@) == Some(unit(2, 1, -2, 0, 0, 0, 0, 0, 0x3ff0_0000_0000_0000)),
        unit_named("W"@) == Some(unit(2, 1, -3, 0, 0, 0, 0, 0, 0x3ff0_0000_0000_0000)),
        unit_named("Pa"@) == Some(unit(-1, 1, -2, 0, 0, 0, 0, 0, 0x3ff0_0000_0000_0000)),
        unit_named("T"@) == Some(unit(0, 1, -2, -1, 0, 0, 0, 0, 0x3ff0_0000_0000_0000)),
        unit_named("V"@) == Some(unit(2, 1, -3, -1, 0, 0, 0, 0, 0x3ff0_0000_0000_0000)),
        unit_named("Wb"@) == Some(unit(2, 1, -2, -1, 0, 0, 0, 0, 0x3ff0_0000_0000_0000)),
        unit_named("C"@) == Some(unit(0, 0, 1, 1, 0, 0, 0, 0, 0x3ff0_0000_0000_0000)),
        unit_named("F"@) == Some(unit(-2, -1, 4, 2, 0, 0, 0, 0, 0x3ff0_0000_0000_0000)),
        unit_named("Jy"@) == Some(unit(0, 1, -2, 0, 0, 0, 0, 0, 0x3a88_c240_c4ae_cb14)),
        unit_named("deg"@) == Some(unit(0, 0, 0, 0, 0, 0, 0, 1, 0x3f91_df46_a252_9d39)),
{
    reveal_strlit("pct");
    reveal_strlit("%");
    reveal_strlit("ppm");
    reveal_strlit("m");
    reveal_strlit("kg");
    reveal_strlit("s");
    reveal_strlit("A");
    reveal_strlit("K");
    reveal_strlit("mol");
    reveal_strlit("cd");
    reveal_strlit("rad");
    reveal_strlit("km");
    reveal_strlit("cm");
    reveal_strlit("mm");
    reveal_strlit("um");
    reveal_strlit("µm");
    reveal_strlit("nm");
    reveal_strlit("pm");
    reveal_strlit("inch");
    reveal_strlit("ft");
    reveal_strlit("mi");
    reveal_strlit("au");
    reveal_strlit("ly");
    reveal_strlit("pc");
    reveal_strlit("kpc");
    reveal_strlit("Mpc");
    reveal_strlit("g");
    reveal_strlit("mg");
    reveal_strlit("ug");
    reveal_strlit("µg");
    reveal_strlit("t");
    reveal_strlit("ms");
    reveal_strlit("us");
    reveal_strlit("ns");
    reveal_strlit("min");
    reveal_strlit("h");
    reveal_strlit("hr");
    reveal_strlit("d");
    reveal_strlit("day");
    reveal_strlit("yr");
    reveal_strlit("Hz");
    reveal_strlit("N");
    reveal_strlit("J");
    reveal_strlit("W");
    reveal_strlit("Pa");
    reveal_strlit("T");
    reveal_strlit("V");
    reveal_strlit("Wb");
    reveal_strlit("C");
    reveal_strlit("F");
    reveal_strlit("Jy");
    reveal_strlit("deg");
    assert("pct"@.len() == 3 && "pct"@[0] == 'p' && "pct"@[1] == 'c' && "pct"@[2] == 't');
    assert("%"@.len() == 1 && "%"@[0] == '%');
    assert("ppm"@.len() == 3 && "ppm"@[0] == 'p' && "ppm"@[1] == 'p' && "ppm"@[2] == 'm');
    assert("m"@.len() == 1 && "m"@[0] == 'm');
    assert("kg"@.len() == 2 && "kg"@[0] == 'k' && "kg"@[1] == 'g');
    assert("s"@.len() == 1 && "s"@[0] == 's');
    assert("A"@.len() == 1 && "A"@[0] == 'A');
    assert("K"@.len() == 1 && "K"@[0] == 'K');
    assert("mol"@.len() == 3 && "mol"@[0] == 'm' && "mol"@[1] == 'o' && "mol"@[2] == 'l');
    assert("cd"@.len() == 2 && "cd"@[0] == 'c' && "cd"@[1] == 'd');
    assert("rad"@.len() == 3 && "rad"@[0] == 'r' && "rad"@[1] == 'a' && "rad"@[2] == 'd');
    assert("km"@.len() == 2 && "km"@[0] == 'k' && "km"@[1] == 'm');
    assert("cm"@.len() == 2 && "cm"@[0] == 'c' && "cm"@[1] == 'm');
    assert("mm"@.len() == 2 && "mm"@[0] == 'm' && "mm"@[1] == 'm');
    assert("um"@.len() == 2 && "um"@[0] == 'u' && "um"@[1] == 'm');
    assert("µm"@.len() == 2 && "µm"@[0] == 'µ' && "µm"@[1] == 'm');
    assert("nm"@.len() == 2 && "nm"@[0] == 'n' && "nm"@[1] == 'm');
    assert("pm"@.len() == 2 && "pm"@[0] == 'p' && "pm"@[1] == 'm');
    assert("inch"@.len() == 4 && "inch"@[0] == 'i' && "inch"@[1] == 'n' && "inch"@[2] == 'c');
    assert("ft"@.len() == 2 && "ft"@[0] == 'f' && "ft"@[1] == 't');
    assert("mi"@.len() == 2 && "mi"@[0] == 'm' && "mi"@[1] == 'i');
    assert("au"@.len() == 2 && "au"@[0] == 'a' && "au"@[1] == 'u');
    assert("ly"@.len() == 2 && "ly"@[0] == 'l' && "ly"@[1] == 'y');
    assert("pc"@.len() == 2 && "pc"@[0] == 'p' && "pc"@[1] == 'c');
    assert("kpc"@.len() == 3 && "kpc"@[0] == 'k' && "kpc"@[1] == 'p' && "kpc"@[2] == 'c');
    assert("Mpc"@.len() == 3 && "Mpc"@[0] == 'M' && "Mpc"@[1] == 'p' && "Mpc"@[2] == 'c');
    assert("g"@.len() == 1 && "g"@[0] == 'g');
    assert("mg"@.len() == 2 && "mg"@[0] == 'm' && "mg"@[1] == 'g');
    assert("ug"@.len() == 2 && "ug"@[0] == 'u' && "ug"@[1] == 'g');
    assert("µg"@.len() == 2 && "µg"@[0] == 'µ' && "µg"@[1] == 'g');
    assert("t"@.len() == 1 && "t"@[0] == 't');
    assert("ms"@.len() == 2 && "ms"@[0] == 'm' && "ms"@[1] == 's');
    assert("us"@.len() == 2 && "us"@[0] == 'u' && "us"@[1] == 's');
    assert("ns"@.len() == 2 && "ns"@[0] == 'n' && "ns"@[1] == 's');
    assert("min"@.len() == 3 && "min"@[0] == 'm' && "min"@[1] == 'i' && "min"@[2] == 'n');
    assert("h"@.len() == 1 && "h"@[0] == 'h');
    assert("hr"@.len() == 2 && "hr"@[0] == 'h' && "hr"@[1] == 'r');
    assert("d"@.len() == 1 && "d"@[0] == 'd');
    assert("day"@.len() == 3 && "day"@[0] == 'd' && "day"@[1] == 'a' && "day"@[2] == 'y');
    assert("yr"@.len() == 2 && "yr"@[0] == 'y' && "yr"@[1] == 'r');
    assert("Hz"@.len() == 2 && "Hz"@[0] == 'H' && "Hz"@[1] == 'z');
    assert("N"@.len() == 1 && "N"@[0] == 'N');
    assert("J"@.len() == 1 && "J"@[0] == 'J');
    assert("W"@.len() == 1 && "W"@[0] == 'W');
    assert("Pa"@.len() == 2 && "Pa"@[0] == 'P' && "Pa"@[1] == 'a');
    assert("T"@.len() == 1 && "T"@[0] == 'T');
    assert("V"@.len() == 1 && "V"@[0] == 'V');
    assert("Wb"@.len() == 2 && "Wb"@[0] == 'W' && "Wb"@[1] == 'b');
    assert("C"@.len() == 1 && "C"@[0] == 'C');
    assert("F"@.len() == 1 && "F"@[0] == 'F');
    assert("Jy"@.len() == 2 && "Jy"@[0] == 'J' && "Jy"@[1] == 'y');
    assert("deg"@.len() == 3 && "deg"@[0] == 'd' && "deg"@[1] == 'e' && "deg"@[2] == 'g');
}

/// The exponents of a unit of the table.
pub open spec fn exponents(name: Seq<char>) -> Seq<int> {
    let d = unit_named(name)->0.dims;
    seq![
        d.m as int,
        d.kg as int,
        d.s as int,
        d.a as int,
        d.k as int,
        d.mol as int,
        d.cd as int,
        d.rad as int,
    ]
}

/// A unit of the table has the dimensions of a product of powers of two others.
pub open spec fn made_of(name: Seq<char>, a: Seq<char>, m: int, b: Seq<char>, n: int) -> bool {
    &&& unit_named(name) is Some && unit_named(a) is Some && unit_named(b) is Some
    &&& forall|i: int|
        0 <= i < 8 ==> #[trigger] exponents(name)[i] == m * exponents(a)[i] + n * exponents(b)[i]
}

/// A unit of the table is a whole number of another one, with its dimensions.
pub open spec fn counts(name: Seq<char>, n: int, other: Seq<char>) -> bool {
    unit_named(name) matches Some(u) && (unit_named(other) matches Some(o) && u.dims == o.dims
        && same_size(u.scale, n, o.scale))
}

/// A double is a whole number of times another one, no larger in size.
pub open spec fn same_size(x: u64, n: int, y: u64) -> bool {
    &&& binary_exponent(y) <= binary_exponent(x)
    &&& fraction(x) * power(2, (binary_exponent(x) - binary_exponent(y)) as nat) == n * fraction(y)
}

proof fn lemma_same_size(x: u64, n: int, y: u64, f: int, g: int, k: nat, p: int)
    requires
        fraction(x) == f,
        fraction(y) == g,
        binary_exponent(x) == binary_exponent(y) + k,
        power(2, k) == p,
        f * p == n * g,
    ensures
        same_size(x, n, y),
{
}

/// The dimensions of the derived units, each from those that it is defined by,
/// and the units of time that hold a whole number of others.
#[verifier::spinoff_prover]
#[verifier::rlimit(60)]
pub proof fn law_derived_units()
    ensures
        made_of("Hz"@, "s"@, -1, "s"@, 0),
        forall|i: int|
            0 <= i < 8 ==> #[trigger] exponents("N"@)[i] == exponents("kg"@)[i] + exponents("m"@)[i]
                - 2 * exponents("s"@)[i],
        made_of("J"@, "N"@, 1, "m"@, 1),
        made_of("W"@, "J"@, 1, "s"@, -1),
        made_of("Pa"@, "N"@, 1, "m"@, -2),
        made_of("C"@, "A"@, 1, "s"@, 1),
        made_of("V"@, "W"@, 1, "A"@, -1),
        made_of("F"@, "C"@, 1, "V"@, -1),
        made_of("Wb"@, "V"@, 1, "s"@, 1),
        made_of("T"@, "Wb"@, 1, "m"@, -2),
        made_of("Jy"@, "Pa"@, 1, "m"@, 1),
        made_of("deg"@, "rad"@, 1, "rad"@, 0),
        counts("min"@, 60, "s"@),
        counts("h"@, 60, "min"@),
        counts("hr"@, 1, "h"@),
        counts("d"@, 24, "h"@),
        counts("day"@, 1, "d"@),
        counts("yr"@, 31557600, "s"@),
{
    lemma_names();
    reveal_with_fuel(power, 2);
    lemma_times(2, 1, 1, 0x2, 0x2);
    lemma_times(2, 2, 2, 0x4, 0x4);
    lemma_times(2, 4, 1, 0x10, 0x2);
    lemma_times(2, 4, 2, 0x10, 0x4);
    lemma_times(2, 4, 4, 0x10, 0x10);
    lemma_times(2, 8, 8, 0x100, 0x100);
    lemma_times(2, 16, 8, 0x1_0000, 0x100);
    lemma_same_size(
        0x404e_0000_0000_0000,
        60,
        0x3ff0_0000_0000_0000,
        0x1e_0000_0000_0000,
        0x10_0000_0000_0000,
        5,
        32,
    );
    lemma_same_size(
        0x40ac_2000_0000_0000,
        60,
        0x404e_0000_0000_0000,
        0x1c_2000_0000_0000,
        0x1e_0000_0000_0000,
        6,
        64,
    );
    lemma_same_size(
        0x40ac_2000_0000_0000,
        1,
        0x40ac_2000_0000_0000,
        0x1c_2000_0000_0000,
        0x1c_2000_0000_0000,
        0,
        1,
    );
    lemma_same_size(
        0x40f5_1800_0000_0000,
        24,
        0x40ac_2000_0000_0000,
        0x15_1800_0000_0000,
        0x1c_2000_0000_0000,
        5,
        32,
    );
    lemma_same_size(
        0x40f5_1800_0000_0000,
        1,
        0x40f5_1800_0000_0000,
        0x15_1800_0000_0000,
        0x15_1800_0000_0000,
        0,
        1,
    );
    lemma_same_size(
        0x417e_187e_0000_0000,
        31557600,
        0x3ff0_0000_0000_0000,
        0x1e_187e_0000_0000,
        0x10_0000_0000_0000,
        24,
        16777216,
    );
}

} // verus!
