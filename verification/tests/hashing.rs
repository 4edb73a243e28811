use arc_overlay::hashing::fingerprint;
use arc_overlay::hashing::hash40;
use arc_overlay::hashing::normalize;

#[test]
fn hash40_known_value() {
    // The archive's published hash of a well-known internal path.
    assert_eq!(hash40("fighter/mario/model/body/c00/model.numatb"), 0x29954022ed);
}

#[test]
fn fingerprint_deterministic() {
    let p = "fighter/mario/model/body/c00/model.numatb";
    assert_eq!(fingerprint(p), fingerprint(p));
    assert_eq!(hash40(p), hash40(p));
}

#[test]
fn fingerprint_distinct_over_corpus() {
    let corpus = [
        "fighter/mario/model/body/c00/model.numatb",
        "fighter/mario/model/body/c01/model.numatb",
        "fighter/luigi/model/body/c00/model.numatb",
        "sound/bank/fighter/se_mario.nus3audio",
        "stage/battlefield/normal/model/floor.numshb",
        "ui/replace/chara/chara_1/chara_1_mario_00.bntx",
    ];
    for i in 0..corpus.len() {
        for j in 0..corpus.len() {
            if i != j {
                assert_ne!(fingerprint(corpus[i]), fingerprint(corpus[j]));
            }
        }
    }
}

#[test]
fn normalize_idempotent_samples() {
    let samples = [
        "fighter/mario/model/body/c00/model.numatb",
        "model+us_en.numatb",
        "clip+jp_ja.mp4",
        "a;b.txt",
        "dir.v2/model+us_en.numatb",
        "movie/intro.mp4",
    ];
    for s in samples {
        let once = normalize(s);
        let twice = normalize(&once);
        assert_eq!(once, twice);
    }
}

#[test]
fn normalize_strips_region_tag() {
    assert_eq!(normalize("model+us_en.numatb"), normalize("model.numatb"));
    assert_eq!(normalize("model+us_en.numatb"), "model.numatb");
}

#[test]
fn normalize_rewrites_mp4() {
    assert_eq!(normalize("clip+jp_ja.mp4"), normalize("clip.webm"));
    assert_eq!(normalize("clip+jp_ja.mp4"), "clip.webm");
    assert_eq!(normalize("movie/intro.mp4"), "movie/intro.webm");
}

#[test]
fn normalize_replaces_semicolons() {
    assert_eq!(normalize("prebuilt;/nro.txt"), "prebuilt:/nro.txt");
}

#[test]
fn normalize_with_dotted_directory() {
    // The tag is stripped up to the final '.', the one in the filename.
    assert_eq!(normalize("a.b/model+us_en.numatb"), "a.b/model.numatb");
}

#[test]
fn normalize_leaves_plain_paths_alone() {
    assert_eq!(normalize("fighter/mario/model.numatb"), "fighter/mario/model.numatb");
}

#[test]
fn fingerprint_equates_region_variants() {
    assert_eq!(
        fingerprint("fighter/model+us_en.numatb"),
        fingerprint("fighter/model.numatb")
    );
}

#[test]
fn normalize_ignores_plus_in_directory_names() {
    // Only a tag in the filename is stripped.
    assert_eq!(normalize("dir+a/file.txt"), "dir+a/file.txt");
}
