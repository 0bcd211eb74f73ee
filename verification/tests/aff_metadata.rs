use anycubic::{machine_for_suffix, machine_profile_for_suffix, AffMachine, AffRleFormat};

#[test]
fn every_aff_extension_resolves_to_distinct_profile() {
    let suffixes = [
        "pws", "pw0", "pwx", "dlp", "dl2p", "pwmo", "pm3n", "pm4n", "pwms", "pwma", "pwmx", "pmx2", "pwmb",
        "px6s", "pmsq", "pm3", "pm3m", "pm3r", "pm5", "pm5s", "m5sp",
    ];
    for s in suffixes {
        let p = machine_profile_for_suffix(s);
        assert_eq!(p.key_suffix, s, "suffix {s} -> profile.key_suffix mismatch");
    }
}

#[test]
fn unknown_suffix_falls_back_to_mono() {
    let p = machine_profile_for_suffix("nope");
    assert_eq!(p.key_suffix, "pwmo");
}

#[test]
fn pws_uses_pws_rle_format() {
    assert!(matches!(machine_profile_for_suffix("pws").rle_format, AffRleFormat::Pws));
}

#[test]
fn pw0_extensions_use_pw0_rle_format() {
    for s in ["pw0", "pm3m", "pm5s", "m5sp", "dlp"] {
        assert!(
            matches!(machine_profile_for_suffix(s).rle_format, AffRleFormat::Pw0),
            "{s} should use PW0"
        );
    }
}

#[test]
fn suffix_matching_ignores_ascii_case() {
    assert_eq!(machine_profile_for_suffix("PWS").key_suffix, "pws");
    assert_eq!(machine_profile_for_suffix("PwMx").key_suffix, "pwmx");
    assert_eq!(machine_profile_for_suffix("M5SP").machine_name, "Photon Mono M5s Pro");
}

#[test]
fn near_misses_fall_back_to_mono() {
    assert_eq!(machine_profile_for_suffix("").key_suffix, "pwmo");
    assert_eq!(machine_profile_for_suffix("pws ").key_suffix, "pwmo");
    assert_eq!(machine_profile_for_suffix("pm").key_suffix, "pwmo");
    assert_eq!(machine_profile_for_suffix("pm5sp").key_suffix, "pwmo");
    assert_eq!(machine_profile_for_suffix("pẃs").key_suffix, "pwmo");
}

#[test]
fn profile_data_of_a_few_printers() {
    let p = machine_profile_for_suffix("pws");
    assert_eq!(p.machine_name, "Photon S");
    assert_eq!(p.max_version, 1);
    assert_eq!(p.display_width_nm, 68_040_000);
    assert_eq!(p.display_height_nm, 120_960_000);
    assert_eq!(p.machine_z_nm, 165_000_000);
    assert_eq!(p.default_pixel_nm, 47_250);
    assert_eq!(p.layer_image_format, "pwsImg");
    assert_eq!(p.preview_size, [224, 168]);
    assert_eq!(p.preview2_size, [330, 190]);

    let q = machine_profile_for_suffix("m5sp");
    assert_eq!(q.max_version, 518);
    assert_eq!(q.display_width_nm, 223_641_600);
    assert_eq!(q.layer_image_format, "pw0Img");

    let r = machine_profile_for_suffix("pm4n");
    assert_eq!(r.machine_name, "Photon Mono 4");
    assert_eq!(r.display_width_nm, 153_408_000);
    assert_eq!(r.display_height_nm, 87_040_000);
}

#[test]
fn every_printer_profile_carries_its_own_extension() {
    let all = [
        AffMachine::Pws, AffMachine::Pw0, AffMachine::Pwx, AffMachine::Dlp, AffMachine::Dl2p, AffMachine::Pwmo,
        AffMachine::Pm3n, AffMachine::Pm4n, AffMachine::Pwms, AffMachine::Pwma, AffMachine::Pwmx,
        AffMachine::Pmx2, AffMachine::Pwmb, AffMachine::Px6s, AffMachine::Pmsq, AffMachine::Pm3,
        AffMachine::Pm3m, AffMachine::Pm3r, AffMachine::Pm5, AffMachine::Pm5s, AffMachine::M5sp,
    ];
    for m in all {
        let p = m.profile();
        assert_eq!(machine_profile_for_suffix(p.key_suffix).machine_name, p.machine_name);
        assert_eq!(machine_profile_for_suffix(&p.key_suffix.to_uppercase()).key_suffix, p.key_suffix);
    }
}

#[test]
fn machine_for_suffix_tells_unknown_extensions_apart() {
    assert_eq!(machine_for_suffix("pwmo"), Some(AffMachine::Pwmo));
    assert_eq!(machine_for_suffix("PM3R"), Some(AffMachine::Pm3r));
    assert_eq!(machine_for_suffix("nope"), None);
    assert_eq!(machine_for_suffix(""), None);
}
