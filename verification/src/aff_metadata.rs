//! Per-printer machine profiles for AFF (Anycubic File Format).
//!
//! Each of the 21 AFF file extensions names a printer; its profile carries the
//! printer's identity, its display and build-volume dimensions, the highest
//! format version it reads and which run-length codec its layers use. Lengths
//! are held in whole nanometres.

use vstd::prelude::*;
use vstd::string::StrSliceExecFns;

verus! {

/// The run-length codec of a printer's layer images.
#[derive(Debug, Clone, Copy, PartialEq, Eq, Structural)]
pub enum AffRleFormat {
    /// The Photon S codec.
    Pws,
    /// The PW0 codec (4-bit colour).
    Pw0,
}

/// A printer's machine profile.
#[derive(Debug, Clone, Copy)]
pub struct AffMachineProfile {
    pub key_suffix: &'static str,
    pub machine_name: &'static str,
    pub max_version: u16,
    pub rle_format: AffRleFormat,
    pub display_width_nm: u32,
    pub display_height_nm: u32,
    pub machine_z_nm: u32,
    pub default_pixel_nm: u32,
    pub layer_image_format: &'static str,
    pub preview_size: [u32; 2],
    pub preview2_size: [u32; 2],
}

/// The printers that have an AFF extension of their own.
#[derive(Debug, Clone, Copy, PartialEq, Eq, Structural)]
pub enum AffMachine {
    Pws,
    Pw0,
    Pwx,
    Dlp,
    Dl2p,
    Pwmo,
    Pm3n,
    Pm4n,
    Pwms,
    Pwma,
    Pwmx,
    Pmx2,
    Pwmb,
    Px6s,
    Pmsq,
    Pm3,
    Pm3m,
    Pm3r,
    Pm5,
    Pm5s,
    M5sp,
}

/// A profile with the pixel pitch (47.25 µm) and preview sizes (224×168 and
/// 330×190) that all AFF printers share.
pub open spec fn profile_with(
    key_suffix: &'static str,
    machine_name: &'static str,
    max_version: u16,
    rle_format: AffRleFormat,
    layer_image_format: &'static str,
    display_width_nm: u32,
    display_height_nm: u32,
    machine_z_nm: u32,
) -> AffMachineProfile {
    AffMachineProfile {
        key_suffix,
        machine_name,
        max_version,
        rle_format,
        display_width_nm,
        display_height_nm,
        machine_z_nm,
        default_pixel_nm: 47_250,
        layer_image_format,
        preview_size: [224, 168],
        preview2_size: [330, 190],
    }
}

fn make_profile(
    key_suffix: &'static str,
    machine_name: &'static str,
    max_version: u16,
    rle_format: AffRleFormat,
    layer_image_format: &'static str,
    display_width_nm: u32,
    display_height_nm: u32,
    machine_z_nm: u32,
) -> (p: AffMachineProfile)
    ensures
        p == profile_with(
            key_suffix,
            machine_name,
            max_version,
            rle_format,
            layer_image_format,
            display_width_nm,
            display_height_nm,
            machine_z_nm,
        ),
{
    AffMachineProfile {
        key_suffix,
        machine_name,
        max_version,
        rle_format,
        display_width_nm,
        display_height_nm,
        machine_z_nm,
        default_pixel_nm: 47_250,
        layer_image_format,
        preview_size: [224, 168],
        preview2_size: [330, 190],
    }
}

/// The profile of each printer.
pub open spec fn machine_profile(m: AffMachine) -> AffMachineProfile {
    match m {
        AffMachine::Pws => profile_with("pws", "Photon S", 1, AffRleFormat::Pws, "pwsImg", 68_040_000, 120_960_000, 165_000_000),
        AffMachine::Pw0 => profile_with("pw0", "Photon Zero", 1, AffRleFormat::Pw0, "pw0Img", 55_440_000, 98_637_000, 150_000_000),
        AffMachine::Pwx => profile_with("pwx", "Photon X", 1, AffRleFormat::Pw0, "pw0Img", 192_000_000, 120_000_000, 245_000_000),
        AffMachine::Dlp => profile_with("dlp", "Photon Ultra", 516, AffRleFormat::Pw0, "pw0Img", 102_400_000, 57_600_000, 165_000_000),
        AffMachine::Dl2p => profile_with("dl2p", "Photon D2", 517, AffRleFormat::Pw0, "pw0Img", 130_560_000, 73_440_000, 165_000_000),
        AffMachine::Pwmo => profile_with("pwmo", "Photon Mono", 516, AffRleFormat::Pw0, "pw0Img", 82_620_000, 130_560_000, 165_000_000),
        AffMachine::Pm3n => profile_with("pm3n", "Photon Mono 2", 517, AffRleFormat::Pw0, "pw0Img", 143_360_000, 89_600_000, 165_000_000),
        AffMachine::Pm4n => profile_with("pm4n", "Photon Mono 4", 518, AffRleFormat::Pw0, "pw0Img", 153_408_000, 87_040_000, 165_000_000),
        AffMachine::Pwms => profile_with("pwms", "Photon Mono SE", 516, AffRleFormat::Pw0, "pw0Img", 82_620_000, 130_560_000, 160_000_000),
        AffMachine::Pwma => profile_with("pwma", "Photon Mono 4K", 516, AffRleFormat::Pw0, "pw0Img", 134_400_000, 84_000_000, 165_000_000),
        AffMachine::Pwmx => profile_with("pwmx", "Photon Mono X", 516, AffRleFormat::Pw0, "pw0Img", 192_000_000, 120_000_000, 245_000_000),
        AffMachine::Pmx2 => profile_with("pmx2", "Photon Mono X2", 517, AffRleFormat::Pw0, "pw0Img", 196_610_000, 122_880_000, 200_000_000),
        AffMachine::Pwmb => profile_with("pwmb", "Photon Mono X 6K / M3 Plus", 517, AffRleFormat::Pw0, "pw0Img", 198_150_000, 123_840_000, 245_000_000),
        AffMachine::Px6s => profile_with("px6s", "Photon Mono X 6Ks", 517, AffRleFormat::Pw0, "pw0Img", 195_840_000, 122_400_000, 200_000_000),
        AffMachine::Pmsq => profile_with("pmsq", "Photon Mono SQ", 516, AffRleFormat::Pw0, "pw0Img", 120_000_000, 128_000_000, 200_000_000),
        AffMachine::Pm3 => profile_with("pm3", "Photon M3", 516, AffRleFormat::Pw0, "pw0Img", 163_840_000, 102_400_000, 180_000_000),
        AffMachine::Pm3m => profile_with("pm3m", "Photon M3 Max", 516, AffRleFormat::Pw0, "pw0Img", 298_080_000, 165_600_000, 300_000_000),
        AffMachine::Pm3r => profile_with("pm3r", "Photon M3 Premium", 517, AffRleFormat::Pw0, "pw0Img", 218_880_000, 123_120_000, 250_000_000),
        AffMachine::Pm5 => profile_with("pm5", "Photon Mono M5", 517, AffRleFormat::Pw0, "pw0Img", 218_880_000, 122_880_000, 200_000_000),
        AffMachine::Pm5s => profile_with("pm5s", "Photon Mono M5s", 518, AffRleFormat::Pw0, "pw0Img", 218_880_000, 122_880_000, 200_000_000),
        AffMachine::M5sp => profile_with("m5sp", "Photon Mono M5s Pro", 518, AffRleFormat::Pw0, "pw0Img", 223_641_600, 126_976_000, 200_000_000),
    }
}

impl AffMachine {
    /// The profile of this printer.
    pub fn profile(self) -> (p: AffMachineProfile)
        ensures
            p == machine_profile(self),
    {
        match self {
            AffMachine::Pws => make_profile("pws", "Photon S", 1, AffRleFormat::Pws, "pwsImg", 68_040_000, 120_960_000, 165_000_000),
            AffMachine::Pw0 => make_profile("pw0", "Photon Zero", 1, AffRleFormat::Pw0, "pw0Img", 55_440_000, 98_637_000, 150_000_000),
            AffMachine::Pwx => make_profile("pwx", "Photon X", 1, AffRleFormat::Pw0, "pw0Img", 192_000_000, 120_000_000, 245_000_000),
            AffMachine::Dlp => make_profile("dlp", "Photon Ultra", 516, AffRleFormat::Pw0, "pw0Img", 102_400_000, 57_600_000, 165_000_000),
            AffMachine::Dl2p => make_profile("dl2p", "Photon D2", 517, AffRleFormat::Pw0, "pw0Img", 130_560_000, 73_440_000, 165_000_000),
            AffMachine::Pwmo => make_profile("pwmo", "Photon Mono", 516, AffRleFormat::Pw0, "pw0Img", 82_620_000, 130_560_000, 165_000_000),
            AffMachine::Pm3n => make_profile("pm3n", "Photon Mono 2", 517, AffRleFormat::Pw0, "pw0Img", 143_360_000, 89_600_000, 165_000_000),
            AffMachine::Pm4n => make_profile("pm4n", "Photon Mono 4", 518, AffRleFormat::Pw0, "pw0Img", 153_408_000, 87_040_000, 165_000_000),
            AffMachine::Pwms => make_profile("pwms", "Photon Mono SE", 516, AffRleFormat::Pw0, "pw0Img", 82_620_000, 130_560_000, 160_000_000),
            AffMachine::Pwma => make_profile("pwma", "Photon Mono 4K", 516, AffRleFormat::Pw0, "pw0Img", 134_400_000, 84_000_000, 165_000_000),
            AffMachine::Pwmx => make_profile("pwmx", "Photon Mono X", 516, AffRleFormat::Pw0, "pw0Img", 192_000_000, 120_000_000, 245_000_000),
            AffMachine::Pmx2 => make_profile("pmx2", "Photon Mono X2", 517, AffRleFormat::Pw0, "pw0Img", 196_610_000, 122_880_000, 200_000_000),
            AffMachine::Pwmb => make_profile("pwmb", "Photon Mono X 6K / M3 Plus", 517, AffRleFormat::Pw0, "pw0Img", 198_150_000, 123_840_000, 245_000_000),
            AffMachine::Px6s => make_profile("px6s", "Photon Mono X 6Ks", 517, AffRleFormat::Pw0, "pw0Img", 195_840_000, 122_400_000, 200_000_000),
            AffMachine::Pmsq => make_profile("pmsq", "Photon Mono SQ", 516, AffRleFormat::Pw0, "pw0Img", 120_000_000, 128_000_000, 200_000_000),
            AffMachine::Pm3 => make_profile("pm3", "Photon M3", 516, AffRleFormat::Pw0, "pw0Img", 163_840_000, 102_400_000, 180_000_000),
            AffMachine::Pm3m => make_profile("pm3m", "Photon M3 Max", 516, AffRleFormat::Pw0, "pw0Img", 298_080_000, 165_600_000, 300_000_000),
            AffMachine::Pm3r => make_profile("pm3r", "Photon M3 Premium", 517, AffRleFormat::Pw0, "pw0Img", 218_880_000, 123_120_000, 250_000_000),
            AffMachine::Pm5 => make_profile("pm5", "Photon Mono M5", 517, AffRleFormat::Pw0, "pw0Img", 218_880_000, 122_880_000, 200_000_000),
            AffMachine::Pm5s => make_profile("pm5s", "Photon Mono M5s", 518, AffRleFormat::Pw0, "pw0Img", 218_880_000, 122_880_000, 200_000_000),
            AffMachine::M5sp => make_profile("m5sp", "Photon Mono M5s Pro", 518, AffRleFormat::Pw0, "pw0Img", 223_641_600, 126_976_000, 200_000_000),
        }
    }
}

/// `c` with an ASCII capital letter turned into its small letter; any other
/// character is kept.
pub open spec fn ascii_lower(c: char) -> char {
    if 'A' <= c <= 'Z' {
        ((c as int) + 32) as char
    } else {
        c
    }
}

/// `s` with every ASCII capital letter turned into its small letter.
pub open spec fn ascii_lowered(s: Seq<char>) -> Seq<char> {
    s.map_values(|c: char| ascii_lower(c))
}

/// The printer whose extension is `key`, already in small letters, if one
/// has it.
pub open spec fn known_machine(key: Seq<char>) -> Option<AffMachine> {
    if key == "pws"@ {
        Some(AffMachine::Pws)
    } else if key == "pw0"@ {
        Some(AffMachine::Pw0)
    } else if key == "pwx"@ {
        Some(AffMachine::Pwx)
    } else if key == "dlp"@ {
        Some(AffMachine::Dlp)
    } else if key == "dl2p"@ {
        Some(AffMachine::Dl2p)
    } else if key == "pwmo"@ {
        Some(AffMachine::Pwmo)
    } else if key == "pm3n"@ {
        Some(AffMachine::Pm3n)
    } else if key == "pm4n"@ {
        Some(AffMachine::Pm4n)
    } else if key == "pwms"@ {
        Some(AffMachine::Pwms)
    } else if key == "pwma"@ {
        Some(AffMachine::Pwma)
    } else if key == "pwmx"@ {
        Some(AffMachine::Pwmx)
    } else if key == "pmx2"@ {
        Some(AffMachine::Pmx2)
    } else if key == "pwmb"@ {
        Some(AffMachine::Pwmb)
    } else if key == "px6s"@ {
        Some(AffMachine::Px6s)
    } else if key == "pmsq"@ {
        Some(AffMachine::Pmsq)
    } else if key == "pm3"@ {
        Some(AffMachine::Pm3)
    } else if key == "pm3m"@ {
        Some(AffMachine::Pm3m)
    } else if key == "pm3r"@ {
        Some(AffMachine::Pm3r)
    } else if key == "pm5"@ {
        Some(AffMachine::Pm5)
    } else if key == "pm5s"@ {
        Some(AffMachine::Pm5s)
    } else if key == "m5sp"@ {
        Some(AffMachine::M5sp)
    } else {
        None
    }
}

/// The printer whose extension is `key`, already in small letters; the Photon
/// Mono for any other key.
pub open spec fn machine_for_key(key: Seq<char>) -> AffMachine {
    match known_machine(key) {
        Some(m) => m,
        None => AffMachine::Pwmo,
    }
}

fn ascii_lower_char(c: char) -> (l: char)
    ensures
        l == ascii_lower(c),
{
    if 'A' <= c && c <= 'Z' {
        let b: u8 = c as u8;
        (b + 32) as char
    } else {
        c
    }
}

/// Whether `s`, with its ASCII capitals made small, is `key`; `n` is the
/// number of characters of `s`.
fn lowered_equals(s: &str, n: usize, key: &str) -> (b: bool)
    requires
        n == s@.len(),
    ensures
        b == (ascii_lowered(s@) == key@),
{
    if key.unicode_len() != n {
        return false;
    }
    let mut i: usize = 0;
    while i < n
        invariant
            n == s@.len(),
            n == key@.len(),
            i <= n,
            forall|j: int| 0 <= j < i ==> ascii_lower(s@[j]) == key@[j],
        decreases n - i,
    {
        if ascii_lower_char(s.get_char(i)) != key.get_char(i) {
            assert(ascii_lowered(s@)[i as int] != key@[i as int]);
            return false;
        }
        i = i + 1;
    }
    assert(ascii_lowered(s@) =~= key@);
    true
}

/// The printer whose extension is `suffix`, matched regardless of ASCII case;
/// `None` for an unknown extension.
pub fn machine_for_suffix(suffix: &str) -> (m: Option<AffMachine>)
    ensures
        m == known_machine(ascii_lowered(suffix@)),
{
    let n = suffix.unicode_len();
    if lowered_equals(suffix, n, "pws") {
        Some(AffMachine::Pws)
    } else if lowered_equals(suffix, n, "pw0") {
        Some(AffMachine::Pw0)
    } else if lowered_equals(suffix, n, "pwx") {
        Some(AffMachine::Pwx)
    } else if lowered_equals(suffix, n, "dlp") {
        Some(AffMachine::Dlp)
    } else if lowered_equals(suffix, n, "dl2p") {
        Some(AffMachine::Dl2p)
    } else if lowered_equals(suffix, n, "pwmo") {
        Some(AffMachine::Pwmo)
    } else if lowered_equals(suffix, n, "pm3n") {
        Some(AffMachine::Pm3n)
    } else if lowered_equals(suffix, n, "pm4n") {
        Some(AffMachine::Pm4n)
    } else if lowered_equals(suffix, n, "pwms") {
        Some(AffMachine::Pwms)
    } else if lowered_equals(suffix, n, "pwma") {
        Some(AffMachine::Pwma)
    } else if lowered_equals(suffix, n, "pwmx") {
        Some(AffMachine::Pwmx)
    } else if lowered_equals(suffix, n, "pmx2") {
        Some(AffMachine::Pmx2)
    } else if lowered_equals(suffix, n, "pwmb") {
        Some(AffMachine::Pwmb)
    } else if lowered_equals(suffix, n, "px6s") {
        Some(AffMachine::Px6s)
    } else if lowered_equals(suffix, n, "pmsq") {
        Some(AffMachine::Pmsq)
    } else if lowered_equals(suffix, n, "pm3") {
        Some(AffMachine::Pm3)
    } else if lowered_equals(suffix, n, "pm3m") {
        Some(AffMachine::Pm3m)
    } else if lowered_equals(suffix, n, "pm3r") {
        Some(AffMachine::Pm3r)
    } else if lowered_equals(suffix, n, "pm5") {
        Some(AffMachine::Pm5)
    } else if lowered_equals(suffix, n, "pm5s") {
        Some(AffMachine::Pm5s)
    } else if lowered_equals(suffix, n, "m5sp") {
        Some(AffMachine::M5sp)
    } else {
        None
    }
}

/// The machine profile for an AFF file extension, matched regardless of ASCII
/// case; an unknown extension gets the Photon Mono profile.
pub fn machine_profile_for_suffix(suffix: &str) -> (p: AffMachineProfile)
    ensures
        p == machine_profile(machine_for_key(ascii_lowered(suffix@))),
{
    match machine_for_suffix(suffix) {
        Some(m) => m.profile(),
        None => AffMachine::Pwmo.profile(),
    }
}

/// Law: every printer's own extension, in any ASCII case, resolves to that
/// printer, so that no two printers share an extension; the Photon S alone
/// uses the PWS codec, every other printer uses PW0.
pub proof fn law_extension_resolves_to_its_printer(m: AffMachine)
    ensures
        known_machine(ascii_lowered(machine_profile(m).key_suffix@)) == Some(m),
        machine_profile(m).rle_format == (if m == AffMachine::Pws {
            AffRleFormat::Pws
        } else {
            AffRleFormat::Pw0
        }),
{
    reveal_strlit("pws");
    reveal_strlit("pw0");
    reveal_strlit("pwx");
    reveal_strlit("dlp");
    reveal_strlit("dl2p");
    reveal_strlit("pwmo");
    reveal_strlit("pm3n");
    reveal_strlit("pm4n");
    reveal_strlit("pwms");
    reveal_strlit("pwma");
    reveal_strlit("pwmx");
    reveal_strlit("pmx2");
    reveal_strlit("pwmb");
    reveal_strlit("px6s");
    reveal_strlit("pmsq");
    reveal_strlit("pm3");
    reveal_strlit("pm3m");
    reveal_strlit("pm3r");
    reveal_strlit("pm5");
    reveal_strlit("pm5s");
    reveal_strlit("m5sp");
    let key = machine_profile(m).key_suffix@;
    assert(ascii_lowered(key) =~= key);
    let keys = seq![
        "pws"@, "pw0"@, "pwx"@, "dlp"@, "dl2p"@, "pwmo"@, "pm3n"@, "pm4n"@, "pwms"@, "pwma"@, "pwmx"@,
        "pmx2"@, "pwmb"@, "px6s"@, "pmsq"@, "pm3"@, "pm3m"@, "pm3r"@, "pm5"@, "pm5s"@, "m5sp"@
    ];
    assert forall|i: int, j: int| 0 <= i < j < keys.len() implies keys[i] != keys[j] by {
        if keys[i].len() == keys[j].len() {
            if keys[i][0] == keys[j][0] && keys[i][1] == keys[j][1] && keys[i][2] == keys[j][2] {
                assert(keys[i][3] != keys[j][3]);
            }
        }
    }
}

/// Law: the identity and size of each printer, as its AFF profile gives
/// them: extension, name, highest format version, display width and height
/// and build height (in nanometres). Every printer also has a 47.25 µm pixel,
/// 224×168 and 330×190 previews, and the `pwsImg` layer format with the PWS
/// codec for the Photon S, `pw0Img` with PW0 for every other printer.
pub proof fn law_printer_profiles(m: AffMachine)
    ensures
        (
            machine_profile(m).key_suffix,
            machine_profile(m).machine_name,
            machine_profile(m).max_version,
            machine_profile(m).display_width_nm,
            machine_profile(m).display_height_nm,
            machine_profile(m).machine_z_nm,
        ) == match m {
            AffMachine::Pws => ("pws", "Photon S", 1u16, 68_040_000u32, 120_960_000u32, 165_000_000u32),
            AffMachine::Pw0 => ("pw0", "Photon Zero", 1u16, 55_440_000u32, 98_637_000u32, 150_000_000u32),
            AffMachine::Pwx => ("pwx", "Photon X", 1u16, 192_000_000u32, 120_000_000u32, 245_000_000u32),
            AffMachine::Dlp => ("dlp", "Photon Ultra", 516u16, 102_400_000u32, 57_600_000u32, 165_000_000u32),
            AffMachine::Dl2p => ("dl2p", "Photon D2", 517u16, 130_560_000u32, 73_440_000u32, 165_000_000u32),
            AffMachine::Pwmo => ("pwmo", "Photon Mono", 516u16, 82_620_000u32, 130_560_000u32, 165_000_000u32),
            AffMachine::Pm3n => ("pm3n", "Photon Mono 2", 517u16, 143_360_000u32, 89_600_000u32, 165_000_000u32),
            AffMachine::Pm4n => ("pm4n", "Photon Mono 4", 518u16, 153_408_000u32, 87_040_000u32, 165_000_000u32),
            AffMachine::Pwms => ("pwms", "Photon Mono SE", 516u16, 82_620_000u32, 130_560_000u32, 160_000_000u32),
            AffMachine::Pwma => ("pwma", "Photon Mono 4K", 516u16, 134_400_000u32, 84_000_000u32, 165_000_000u32),
            AffMachine::Pwmx => ("pwmx", "Photon Mono X", 516u16, 192_000_000u32, 120_000_000u32, 245_000_000u32),
            AffMachine::Pmx2 => ("pmx2", "Photon Mono X2", 517u16, 196_610_000u32, 122_880_000u32, 200_000_000u32),
            AffMachine::Pwmb => ("pwmb", "Photon Mono X 6K / M3 Plus", 517u16, 198_150_000u32, 123_840_000u32, 245_000_000u32),
            AffMachine::Px6s => ("px6s", "Photon Mono X 6Ks", 517u16, 195_840_000u32, 122_400_000u32, 200_000_000u32),
            AffMachine::Pmsq => ("pmsq", "Photon Mono SQ", 516u16, 120_000_000u32, 128_000_000u32, 200_000_000u32),
            AffMachine::Pm3 => ("pm3", "Photon M3", 516u16, 163_840_000u32, 102_400_000u32, 180_000_000u32),
            AffMachine::Pm3m => ("pm3m", "Photon M3 Max", 516u16, 298_080_000u32, 165_600_000u32, 300_000_000u32),
            AffMachine::Pm3r => ("pm3r", "Photon M3 Premium", 517u16, 218_880_000u32, 123_120_000u32, 250_000_000u32),
            AffMachine::Pm5 => ("pm5", "Photon Mono M5", 517u16, 218_880_000u32, 122_880_000u32, 200_000_000u32),
            AffMachine::Pm5s => ("pm5s", "Photon Mono M5s", 518u16, 218_880_000u32, 122_880_000u32, 200_000_000u32),
            AffMachine::M5sp => ("m5sp", "Photon Mono M5s Pro", 518u16, 223_641_600u32, 126_976_000u32, 200_000_000u32),
        },
        machine_profile(m).default_pixel_nm == 47_250,
        machine_profile(m).preview_size == [224u32, 168u32],
        machine_profile(m).preview2_size == [330u32, 190u32],
        machine_profile(m).layer_image_format == (if m == AffMachine::Pws { "pwsImg" } else { "pw0Img" }),
        machine_profile(m).rle_format == (if m == AffMachine::Pws {
            AffRleFormat::Pws
        } else {
            AffRleFormat::Pw0
        }),
{
}

} // verus!
