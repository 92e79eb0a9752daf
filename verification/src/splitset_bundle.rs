//! The members of a boot bundle over a split set.
//!
//! Cold-booting a split set opens each queried split with a header read of its own. A boot
//! bundle inlines each split's boot region, keyed by the split's data-file name, so that those
//! reads collapse into the one of the bundle.

use crate::bytes::{copy_range, word32};
use crate::error::{BuildError, IndexError};
use crate::split_builder::BuiltSplitSet;
use crate::terms::{header_of, parse_header, HEADER_SIZE};
use vstd::prelude::*;

verus! {

/// What kind of index a bundle member boots.
#[derive(Debug, Clone, Copy, PartialEq, Eq, Structural)]
pub enum MemberTag {
    /// A trigram index.
    Rrs,
    /// A term index.
    Rrti,
}

/// One member of a boot bundle.
#[derive(Debug)]
pub struct MemberSpec {
    /// The kind of index.
    pub tag: MemberTag,
    /// The split's data-file name.
    pub data_file: String,
    /// Where the boot region starts in the split.
    pub boot_off: u32,
    /// Length of the boot region.
    pub boot_len: u32,
    /// The boot region.
    pub boot_bytes: Vec<u8>,
    /// Whether the bundle inlines the boot region. A member that is only referenced opens with
    /// a header read of its own.
    pub inlined: bool,
}

/// Whether `raw` starts with the magic bytes of a term index.
pub open spec fn is_term_index(raw: Seq<u8>) -> bool {
    raw.len() >= 4 && raw.take(4) == crate::terms::magic()
}

/// Length of a term index's boot region: its header and its router.
pub open spec fn term_boot_len(raw: Seq<u8>) -> Result<nat, IndexError> {
    match header_of(raw) {
        Ok(h) => Ok(HEADER_SIZE as nat + h.router_len as nat),
        Err(e) => Err(e),
    }
}

/// Length of a term index's boot region, held at the largest `u64`.
pub fn rrti_boot_len(raw: &[u8]) -> (r: Result<u64, IndexError>)
    ensures
        match term_boot_len(raw@) {
            Ok(n) => r == Ok::<u64, IndexError>(crate::terms::held(n as int)),
            Err(e) => r == Err::<u64, _>(e),
        },
{
    match parse_header(raw) {
        Ok(h) => Ok((HEADER_SIZE as u64).saturating_add(h.router_len)),
        Err(e) => Err(e),
    }
}

/// The tag and the boot length of a split, by its leading magic; `None` where its header cannot
/// be read. `trigram` is the boot length of a trigram index.
pub open spec fn boot_of(raw: Seq<u8>, trigram: Option<u64>) -> Option<(MemberTag, u64)> {
    if is_term_index(raw) {
        match term_boot_len(raw) {
            Ok(n) => Some((MemberTag::Rrti, crate::terms::held(n as int))),
            Err(_) => None,
        }
    } else {
        match trigram {
            Some(n) => Some((MemberTag::Rrs, n)),
            None => None,
        }
    }
}

/// One split's member tag and boot length, dispatched on the split's leading magic.
pub fn split_boot(raw: &[u8], trigram: Option<u64>) -> (r: Option<(MemberTag, u64)>)
    ensures
        r == boot_of(raw@, trigram),
{
    if raw.len() >= 4 && raw[0] == 0x52 && raw[1] == 0x52 && raw[2] == 0x54 && raw[3] == 0x49 {
        assert(raw@.take(4) =~= crate::terms::magic());
        return match rrti_boot_len(raw) {
            Ok(n) => Some((MemberTag::Rrti, n)),
            Err(_) => None,
        };
    }
    proof {
        if is_term_index(raw@) {
            let t = raw@.take(4);
            assert(t[0] == raw@[0] && t[1] == raw@[1] && t[2] == raw@[2] && t[3] == raw@[3]);
        }
    }
    match trigram {
        Some(n) => Some((MemberTag::Rrs, n)),
        None => None,
    }
}

/// How many of `n` splits a bundle takes: at most `max_splits`, where it is not zero.
pub open spec fn taken(n: nat, max_splits: usize) -> nat {
    if max_splits == 0 || n <= max_splits {
        n
    } else {
        max_splits as nat
    }
}

/// Whether `m` is the member of the split `(name, raw)` with the given boot, inlined unless the
/// boot exceeds `inline_threshold`.
pub open spec fn member_of(
    m: MemberSpec,
    name: Seq<char>,
    raw: Seq<u8>,
    boot: Option<(MemberTag, u64)>,
    inline_threshold: u32,
) -> bool {
    &&& boot matches Some(b) && m.tag == b.0 && m.boot_len == word32(b.1 as nat)
        && m.boot_bytes@ == raw.take(b.1 as int)
    &&& m.data_file@ == name
    &&& m.boot_off == 0
    &&& m.inlined == (m.boot_len <= inline_threshold)
}

/// Whether the split `i` has a boot region within its bytes.
pub open spec fn bootable(
    splits: Seq<(String, Vec<u8>)>,
    trigrams: Seq<Option<u64>>,
    i: int,
) -> bool {
    boot_of(splits[i].1@, trigrams[i]) matches Some(b) && b.1 <= splits[i].1@.len()
}

/// The bundle's members: one for each split that it takes, in seal order, so that the top tiers
/// come first. `max_splits` caps how many splits are taken (`0` is all); a split whose boot
/// exceeds `inline_threshold` is referenced, not inlined, so that the bundle never forces a large
/// first read. `trigrams` gives the boot length of each trigram split, `None` where its header
/// cannot be read.
pub fn write_splitset_bundle(
    built: &BuiltSplitSet,
    trigrams: &[Option<u64>],
    max_splits: usize,
    inline_threshold: u32,
) -> (r: Result<Vec<MemberSpec>, BuildError>)
    requires
        trigrams@.len() == built.splits@.len(),
    ensures
        ({
            let splits = built.splits@;
            let n = taken(splits.len(), max_splits) as int;
            match r {
                Ok(ms) => {
                    &&& ms@.len() == n
                    &&& forall|i: int|
                        0 <= i < n ==> bootable(splits, trigrams@, i) && member_of(
                            #[trigger] ms@[i],
                            splits[i].0@,
                            splits[i].1@,
                            boot_of(splits[i].1@, trigrams@[i]),
                            inline_threshold,
                        )
                },
                Err(e) => exists|i: int|
                    {
                        &&& 0 <= i < n
                        &&& !(#[trigger] bootable(splits, trigrams@, i))
                        &&& forall|j: int| 0 <= j < i ==> #[trigger] bootable(splits, trigrams@, j)
                        &&& match boot_of(splits[i].1@, trigrams@[i]) {
                            None => e matches BuildError::BadSplitHeader(name) && name@
                                == splits[i].0@,
                            Some(b) => e matches BuildError::BootTooLong { split, boot, size }
                                && split@ == splits[i].0@ && boot == b.1 && size
                                == splits[i].1@.len(),
                        }
                    },
            }
        }),
{
    let splits = &built.splits;
    let n: usize = if max_splits == 0 || splits.len() <= max_splits {
        splits.len()
    } else {
        max_splits
    };
    let mut ms: Vec<MemberSpec> = Vec::new();
    let mut i: usize = 0;
    while i < n
        invariant
            splits@ == built.splits@,
            i <= n <= splits@.len(),
            n == taken(splits@.len(), max_splits),
            trigrams@.len() == splits@.len(),
            ms@.len() == i,
            forall|j: int| 0 <= j < i ==> #[trigger] bootable(splits@, trigrams@, j),
            forall|j: int|
                0 <= j < i ==> member_of(
                    #[trigger] ms@[j],
                    splits@[j].0@,
                    splits@[j].1@,
                    boot_of(splits@[j].1@, trigrams@[j]),
                    inline_threshold,
                ),
        decreases n - i,
    {
        let raw = &splits[i].1;
        match split_boot(raw.as_slice(), trigrams[i]) {
            None => {
                assert(!bootable(splits@, trigrams@, i as int));
                return Err(BuildError::BadSplitHeader(splits[i].0.clone()));
            },
            Some(b) => {
                if b.1 > raw.len() as u64 {
                    assert(!bootable(splits@, trigrams@, i as int));
                    return Err(
                        BuildError::BootTooLong {
                            split: splits[i].0.clone(),
                            boot: b.1,
                            size: raw.len() as u64,
                        },
                    );
                }
                let len: usize = b.1 as usize;
                let word: u64 = b.1 % 0x1_0000_0000;
                let boot_bytes = copy_range(raw.as_slice(), 0, len);
                assert(boot_bytes@ =~= raw@.take(len as int));
                assert(bootable(splits@, trigrams@, i as int));
                ms.push(
                    MemberSpec {
                        tag: b.0,
                        data_file: splits[i].0.clone(),
                        boot_off: 0,
                        boot_len: word as u32,
                        boot_bytes,
                        inlined: word as u32 <= inline_threshold,
                    },
                );
            },
        }
        i += 1;
    }
    proof {
        assert forall|j: int| 0 <= j < n implies bootable(splits@, trigrams@, j) && member_of(
            #[trigger] ms@[j],
            splits@[j].0@,
            splits@[j].1@,
            boot_of(splits@[j].1@, trigrams@[j]),
            inline_threshold,
        ) by {
            assert(bootable(splits@, trigrams@, j));
        }
    }
    Ok(ms)
}

/// A bundle takes all splits, or the first `max_splits` of them where that is fewer and not
/// zero.
pub proof fn law_taken(n: nat, max_splits: usize)
    ensures
        taken(n, 0) == n,
        taken(n, max_splits) <= n,
        max_splits > 0 ==> taken(n, max_splits) <= max_splits && (taken(n, max_splits) == n || taken(
            n,
            max_splits,
        ) == max_splits),
{
}

/// A file that starts with `RRTI` boots from its header and its router, any other from the boot
/// region of a trigram index.
pub proof fn law_boot_of(raw: Seq<u8>, trigram: Option<u64>)
    ensures
        ({
            let term = raw.len() >= 4 && raw[0] == 0x52 && raw[1] == 0x52 && raw[2] == 0x54 && raw[3]
                == 0x49;
            &&& term ==> match boot_of(raw, trigram) {
                Some(b) => b.0 is Rrti && raw.len() >= 40 && (40 + crate::bytes::u64_at(raw, 16)
                    <= u64::MAX ==> b.1 == 40 + crate::bytes::u64_at(raw, 16)),
                None => raw.len() < 40 || crate::bytes::u16_at(raw, 4) != 2,
            }
            &&& !term ==> match boot_of(raw, trigram) {
                Some(b) => b.0 is Rrs && trigram == Some(b.1),
                None => trigram is None,
            }
        }),
{
    let m = seq![0x52u8, 0x52u8, 0x54u8, 0x49u8];
    if raw.len() >= 4 {
        if raw.take(4) == m {
            assert(raw.take(4)[0] == 0x52 && raw.take(4)[1] == 0x52 && raw.take(4)[2] == 0x54
                && raw.take(4)[3] == 0x49);
        } else if raw[0] == 0x52 && raw[1] == 0x52 && raw[2] == 0x54 && raw[3] == 0x49 {
            assert(raw.take(4) =~= m);
        }
    }
    crate::terms::law_header_accepted(raw);
}

/// A member is the split of its name with the bytes it boots from, its first ones, and these are
/// inlined exactly where there are no more of them than the threshold.
pub proof fn law_member(
    m: MemberSpec,
    name: Seq<char>,
    raw: Seq<u8>,
    boot: Option<(MemberTag, u64)>,
    inline_threshold: u32,
)
    requires
        member_of(m, name, raw, boot, inline_threshold),
        boot matches Some(b) ==> b.1 <= raw.len() && b.1 <= u32::MAX,
    ensures
        m.data_file@ == name,
        m.boot_off == 0,
        m.boot_bytes@.len() == m.boot_len,
        forall|i: int| 0 <= i < m.boot_len ==> #[trigger] m.boot_bytes@[i] == raw[i],
        boot == Some((m.tag, m.boot_len as u64)),
        m.inlined <==> m.boot_bytes@.len() <= inline_threshold,
{
}

} // verus!
