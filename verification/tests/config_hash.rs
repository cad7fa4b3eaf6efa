use inference_sim::config_hash::{ConfigFingerprint, SCHEME};
use sha2::{Digest, Sha256};

fn sample() -> ConfigFingerprint {
    ConfigFingerprint {
        gpu: "H200".to_string(),
        vllm_tag: "v0.23.0".to_string(),
        engine_config: "block_size=16;enforce_eager=true;enable_prefix_caching=true;\
                        gpu_memory_utilization=0.9;max_model_len=16384;max_num_seqs=256;\
                        model=Qwen/Qwen3-8B;speculative=none;tensor_parallel=1"
            .to_string(),
    }
}

fn fingerprint(gpu: &str, vllm_tag: &str, engine_config: &str) -> ConfigFingerprint {
    ConfigFingerprint {
        gpu: gpu.to_string(),
        vllm_tag: vllm_tag.to_string(),
        engine_config: engine_config.to_string(),
    }
}

#[test]
fn hash_is_deterministic() {
    assert_eq!(sample().hash(), sample().hash());
    // 64 hex chars = 32-byte sha256.
    assert_eq!(sample().hash().len(), 64);
    assert!(sample().hash().chars().all(|c| c.is_ascii_hexdigit()));
}

#[test]
fn every_field_changes_the_hash() {
    let base = sample().hash();
    let mutated = [
        ConfigFingerprint {
            gpu: "A100".to_string(),
            ..sample()
        },
        ConfigFingerprint {
            vllm_tag: "v0.22.1".to_string(),
            ..sample()
        },
        // A different deployed config (here: prefix caching off) -> different digest.
        ConfigFingerprint {
            engine_config: sample()
                .engine_config
                .replace("enable_prefix_caching=true", "enable_prefix_caching=false"),
            ..sample()
        },
    ];
    for m in mutated {
        assert_ne!(base, m.hash(), "changing a field must change the hash");
    }
}

#[test]
fn field_labels_prevent_value_bleed() {
    // gpu="H200" + tag="v0.23.0" must not collide with gpu="H200v0.23.0" + tag="":
    // the labels + newlines in the canonical form keep field values from merging.
    let a = ConfigFingerprint {
        gpu: "H200".to_string(),
        vllm_tag: "v0.23.0".to_string(),
        engine_config: String::new(),
    };
    let b = ConfigFingerprint {
        gpu: "H200v0.23.0".to_string(),
        vllm_tag: String::new(),
        engine_config: String::new(),
    };
    assert_ne!(a.hash(), b.hash());
}

#[test]
fn canonical_form_is_fixed() {
    assert_eq!(SCHEME, "config-fingerprint-v3");
    assert_eq!(
        fingerprint("H200", "v0.23.0", "tp=1").canonical(),
        "config-fingerprint-v3\ngpu=H200\nvllm_tag=v0.23.0\nengine_config=tp=1\n"
    );
}

#[test]
fn hash_is_the_digest_of_the_canonical_form() {
    let print = fingerprint("H200", "v0.23.0", "tp=1");
    let expected: String = Sha256::digest(print.canonical().as_bytes())
        .iter()
        .map(|byte| format!("{byte:02x}"))
        .collect();
    assert_eq!(print.hash(), expected);
    assert_eq!(
        print.hash(),
        "428ff056c1904be3579074381c8487ca4134835d80b85919282d9e4e6966c1dd"
    );
}

#[test]
fn equal_fields_have_equal_hashes() {
    assert_eq!(fingerprint("a", "b", "c").hash(), fingerprint("a", "b", "c").hash());
    assert_eq!(fingerprint("", "", "").canonical(), fingerprint("", "", "").canonical());
}

#[test]
fn canonical_forms_differ_unless_a_field_spells_a_label() {
    assert_ne!(
        fingerprint("a\nb", "c", "d").canonical(),
        fingerprint("a", "b\nc", "d").canonical()
    );
    // A field that spells the next label out itself is the one way to merge values.
    assert_eq!(
        fingerprint("a\nvllm_tag=b", "c", "d").canonical(),
        fingerprint("a", "b\nvllm_tag=c", "d").canonical()
    );
}
