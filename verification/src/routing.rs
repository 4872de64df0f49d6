//! Deterministic routing: severity classification and event partitioning.
use vstd::prelude::*;

use crate::contracts::EventEnvelope;
use crate::text;
use crate::text::{ascii_lowercase_range, chars_eq_str, chars_of, trim_bounds};

verus! {

#[derive(Clone, Copy, Debug, Eq, PartialEq, Ord, PartialOrd)]
pub enum Priority {
    Low,
    Normal,
    High,
    Urgent,
}

/// The priority of an already trimmed, lowercased severity label.
pub open spec fn spec_priority_of_label(label: Seq<char>) -> Priority {
    if label == "critical"@ || label == "p0"@ || label == "sev0"@ || label == "sev1"@ {
        Priority::Urgent
    } else if label == "high"@ || label == "p1"@ || label == "sev2"@ {
        Priority::High
    } else if label == "medium"@ || label == "p2"@ || label == "warn"@ || label == "warning"@ {
        Priority::Normal
    } else {
        Priority::Low
    }
}

/// The priority of a severity as written: surrounding whitespace and ASCII
/// case do not matter, and an unknown label is `Low`.
pub open spec fn spec_classify(severity: Seq<char>) -> Priority {
    spec_priority_of_label(text::ascii_lower_seq(text::trim(severity)))
}

pub fn classify(severity: &str) -> (p: Priority)
    ensures
        p == spec_classify(severity@),
{
    let chars = chars_of(severity);
    let (start, end) = trim_bounds(&chars);
    let label = ascii_lowercase_range(&chars, start, end);
    let l = label.as_slice();
    if chars_eq_str(l, "critical") || chars_eq_str(l, "p0") || chars_eq_str(l, "sev0")
        || chars_eq_str(l, "sev1") {
        Priority::Urgent
    } else if chars_eq_str(l, "high") || chars_eq_str(l, "p1") || chars_eq_str(l, "sev2") {
        Priority::High
    } else if chars_eq_str(l, "medium") || chars_eq_str(l, "p2") || chars_eq_str(l, "warn")
        || chars_eq_str(l, "warning") {
        Priority::Normal
    } else {
        Priority::Low
    }
}

/// Classification does not see whitespace around the severity.
pub proof fn lemma_classify_ignores_surrounding_whitespace(
    before: Seq<char>,
    severity: Seq<char>,
    after: Seq<char>,
)
    requires
        forall|i: int| 0 <= i < before.len() ==> text::is_whitespace(#[trigger] before[i]),
        forall|i: int| 0 <= i < after.len() ==> text::is_whitespace(#[trigger] after[i]),
    ensures
        spec_classify(before + severity + after) == spec_classify(severity),
{
    text::lemma_trim_ignores_surrounding_whitespace(before, severity, after);
}

/// Classification does not see ASCII case.
pub proof fn lemma_classify_ignores_ascii_case(severity: Seq<char>)
    ensures
        spec_classify(text::ascii_lower_seq(severity)) == spec_classify(severity),
{
    text::lemma_trim_ascii_lower(severity);
    text::lemma_trim_ascii_lower(text::trim(severity));
}

/// The severity table: once trimmed and lowercased, `critical`, `p0`, `sev0`
/// and `sev1` are urgent; `high`, `p1` and `sev2` high; `medium`, `p2`, `warn`
/// and `warning` normal; every other label is low.
pub proof fn lemma_classify_table(severity: Seq<char>)
    ensures
        ({
            let label = text::ascii_lower_seq(text::trim(severity));
            &&& (label == "critical"@ || label == "p0"@ || label == "sev0"@ || label == "sev1"@)
                ==> spec_classify(severity) == Priority::Urgent
            &&& (label == "high"@ || label == "p1"@ || label == "sev2"@) ==> spec_classify(severity)
                == Priority::High
            &&& (label == "medium"@ || label == "p2"@ || label == "warn"@ || label == "warning"@)
                ==> spec_classify(severity) == Priority::Normal
            &&& !(label == "critical"@ || label == "p0"@ || label == "sev0"@ || label == "sev1"@
                || label == "high"@ || label == "p1"@ || label == "sev2"@ || label == "medium"@
                || label == "p2"@ || label == "warn"@ || label == "warning"@) ==> spec_classify(
                severity,
            ) == Priority::Low
        }),
{
    let label = text::ascii_lower_seq(text::trim(severity));
    lemma_severity_labels_distinct(label);
}

/// The severity labels are pairwise different, so the table has no overlap.
proof fn lemma_severity_labels_distinct(label: Seq<char>)
    ensures
        label == "high"@ || label == "p1"@ || label == "sev2"@ ==> !(label == "critical"@ || label
            == "p0"@ || label == "sev0"@ || label == "sev1"@),
        label == "medium"@ || label == "p2"@ || label == "warn"@ || label == "warning"@ ==> !(label
            == "critical"@ || label == "p0"@ || label == "sev0"@ || label == "sev1"@ || label
            == "high"@ || label == "p1"@ || label == "sev2"@),
{
    reveal_strlit("critical");
    reveal_strlit("p0");
    reveal_strlit("sev0");
    reveal_strlit("sev1");
    reveal_strlit("high");
    reveal_strlit("p1");
    reveal_strlit("sev2");
    reveal_strlit("medium");
    reveal_strlit("p2");
    reveal_strlit("warn");
    reveal_strlit("warning");
    assert("p0"@[1] != "p1"@[1] && "p0"@[1] != "p2"@[1] && "p1"@[1] != "p2"@[1]);
    assert("sev2"@[3] != "sev0"@[3] && "sev2"@[3] != "sev1"@[3]);
    assert("high"@[0] != "sev0"@[0] && "high"@[0] != "sev1"@[0]);
    assert("warn"@[0] != "sev0"@[0] && "warn"@[0] != "sev1"@[0] && "warn"@[0] != "sev2"@[0]
        && "warn"@[0] != "high"@[0]);
    assert("medium"@.len() == 6 && "warning"@.len() == 7 && "critical"@.len() == 8);
    assert("warn"@.len() == 4 && "p2"@.len() == 2 && "high"@.len() == 4 && "p1"@.len() == 2);
}

pub const PARTITION_HASH_SEED: u64 = 1469598103934665603;

pub const PARTITION_HASH_PRIME: u64 = 1099511628211;

/// The partition hash of `bytes`, in the FNV-1a scheme: start from the seed,
/// and for each byte in order XOR it in and multiply by the FNV prime modulo
/// 2^64. (The seed is this library's own, not the published FNV offset basis.)
pub open spec fn partition_hash(bytes: Seq<u8>) -> u64
    decreases bytes.len(),
{
    if bytes.len() == 0 {
        PARTITION_HASH_SEED
    } else {
        (((partition_hash(bytes.drop_last()) ^ (bytes.last() as u64)) as nat * PARTITION_HASH_PRIME as nat)
            % 0x1_0000_0000_0000_0000) as u64
    }
}

pub open spec fn spec_partition(id: Seq<char>, partitions: u64) -> Result<u64, Seq<char>> {
    if partitions == 0 {
        Err("partitions must be non-zero"@)
    } else {
        Ok(partition_hash(vstd::utf8::encode_utf8(id)) % partitions)
    }
}

/// The partition hash, with its constants written out: the empty byte string
/// hashes to 1469598103934665603, and appending byte `b` to a string of hash
/// `h` gives `((h XOR b) * 1099511628211) mod 2^64`. Every byte of the id
/// enters the hash.
pub proof fn lemma_partition_hash_steps(bytes: Seq<u8>, b: u8)
    ensures
        partition_hash(Seq::<u8>::empty()) == 1469598103934665603u64,
        partition_hash(bytes.push(b)) == (((partition_hash(bytes) ^ (b as u64)) as nat
            * 1099511628211nat) % 0x1_0000_0000_0000_0000nat) as u64,
{
    assert(bytes.push(b).drop_last() == bytes);
}

/// Partitioning refuses zero partitions, and otherwise is the partition hash
/// of all the UTF-8 bytes of the id, modulo the number of partitions.
pub proof fn lemma_partition_of_id(id: Seq<char>, partitions: u64)
    ensures
        partitions == 0 ==> spec_partition(id, partitions) == Err::<u64, Seq<char>>(
            "partitions must be non-zero"@,
        ),
        partitions > 0 ==> spec_partition(id, partitions) == Ok::<u64, Seq<char>>(
            partition_hash(vstd::utf8::encode_utf8(id)) % partitions,
        ),
{
}

pub open spec fn partition_view(r: Result<u64, &'static str>) -> Result<u64, Seq<char>> {
    match r {
        Ok(p) => Ok(p),
        Err(m) => Err(m@),
    }
}

/// The partition of `event`: the partition hash of the UTF-8 bytes of its id,
/// modulo the number of partitions.
pub fn partition(event: &EventEnvelope, partitions: u64) -> (r: Result<u64, &'static str>)
    ensures
        partition_view(r) == spec_partition(event.id@, partitions),
        r matches Ok(p) ==> p < partitions,
{
    if partitions == 0 {
        return Err("partitions must be non-zero");
    }
    let bytes = event.id.as_str().as_bytes();
    let mut hash: u64 = PARTITION_HASH_SEED;
    let mut i: usize = 0;
    while i < bytes.len()
        invariant
            bytes@ == vstd::utf8::encode_utf8(event.id@),
            i <= bytes@.len(),
            hash == partition_hash(bytes@.take(i as int)),
        decreases bytes@.len() - i,
    {
        let byte = bytes[i];
        proof {
            assert(bytes@.take(i + 1).drop_last() == bytes@.take(i as int));
        }
        hash = (hash ^ (byte as u64)).wrapping_mul(PARTITION_HASH_PRIME);
        i = i + 1;
    }
    assert(bytes@.take(bytes@.len() as int) == bytes@);
    Ok(hash % partitions)
}

} // verus!
