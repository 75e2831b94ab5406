//! The FAT16-specific extended BPB, the allocation table with cluster-chain
//! traversal, and the filesystem facade that resolves absolute paths.

use vstd::prelude::*;

use crate::FatError;
use crate::fat::{DirEntryModel, FatBPB, FatDirEntry, bpb_matches, spec_parse_region};
use crate::utils::{le16, le32, lower, read_le16, read_le32, spec_segments, Path};

verus! {

/// The FAT16 extension of the BPB: bytes 36..512 of the boot sector.
#[derive(Debug)]
pub struct Fat16EBPB {
    pub drive_number: u8,
    pub reserved1: u8,
    pub boot_signature: u8,
    pub volume_id: u32,
    /// Volume label, 11 bytes.
    pub volume_label: Vec<u8>,
    /// File-system type string, 8 bytes.
    pub file_system_type: Vec<u8>,
    /// Boot code, 448 bytes, preserved verbatim.
    pub boot_code: Vec<u8>,
    /// The boot-partition signature; `55 AA` on a valid image.
    pub boot_partition_signature: Vec<u8>,
}

/// All fields of `e` hold the values stored at their offsets in `b` (local
/// offsets within the 476-byte extended block).
pub open spec fn ebpb_matches(e: Fat16EBPB, b: Seq<u8>) -> bool {
    &&& e.drive_number == b[0]
    &&& e.reserved1 == b[1]
    &&& e.boot_signature == b[2]
    &&& e.volume_id == le32(b, 3)
    &&& e.volume_label@ == b.subrange(7, 18)
    &&& e.file_system_type@ == b.subrange(18, 26)
    &&& e.boot_code@ == b.subrange(26, 474)
    &&& e.boot_partition_signature@ == b.subrange(474, 476)
}

impl Fat16EBPB {
    /// Parses the 476-byte extended BPB at the head of `bytes` and returns
    /// it with the remainder. Fails with `ShortBuffer` exactly when fewer
    /// than 476 bytes are available.
    pub fn parse(bytes: &[u8]) -> (r: Result<(Fat16EBPB, &[u8]), FatError>)
        ensures
            match r {
                Ok((e, rest)) => bytes@.len() >= 476 && ebpb_matches(e, bytes@) && rest@
                    == bytes@.skip(476),
                Err(e) => e == FatError::ShortBuffer && bytes@.len() < 476,
            },
    {
        let n = bytes.len();
        if n < 476 {
            return Err(FatError::ShortBuffer);
        }
        let ebpb = Fat16EBPB {
            drive_number: *vstd::slice::slice_index_get(bytes, 0),
            reserved1: *vstd::slice::slice_index_get(bytes, 1),
            boot_signature: *vstd::slice::slice_index_get(bytes, 2),
            volume_id: read_le32(bytes, 3),
            volume_label: vstd::slice::slice_to_vec(vstd::slice::slice_subrange(bytes, 7, 18)),
            file_system_type: vstd::slice::slice_to_vec(
                vstd::slice::slice_subrange(bytes, 18, 26),
            ),
            boot_code: vstd::slice::slice_to_vec(vstd::slice::slice_subrange(bytes, 26, 474)),
            boot_partition_signature: vstd::slice::slice_to_vec(
                vstd::slice::slice_subrange(bytes, 474, 476),
            ),
        };
        Ok((ebpb, vstd::slice::slice_subrange(bytes, 476, n)))
    }
}

/// The number of bytes the whole FAT region occupies: all FAT copies.
pub open spec fn spec_fat_size(bpb: &FatBPB) -> int {
    bpb.num_fats * bpb.sectors_per_fat * bpb.bytes_per_sector
}

/// The number of allocation-table entries materialised: total sectors
/// (the large count when the 16-bit one is zero) divided by the sectors per
/// cluster. Zero when the cluster size is zero, so that nothing divides by
/// zero on a degenerate image.
pub open spec fn spec_cluster_cnt(bpb: &FatBPB) -> int {
    if bpb.sectors_per_cluster == 0 {
        0
    } else if bpb.total_sectors == 0 {
        bpb.large_sectors as int / bpb.sectors_per_cluster as int
    } else {
        bpb.total_sectors as int / bpb.sectors_per_cluster as int
    }
}

/// The first `cnt` 16-bit little-endian values of `b`, indexed by cluster
/// number.
pub open spec fn fat_table_of(b: Seq<u8>, cnt: int) -> Seq<u16> {
    Seq::new(cnt as nat, |i: int| crate::utils::le16(b, 2 * i))
}

/// The file allocation table: one 16-bit link value per cluster number.
#[derive(Debug)]
pub struct Fat16AllocTable {
    table: Vec<u16>,
}

impl View for Fat16AllocTable {
    type V = Seq<u16>;

    closed spec fn view(&self) -> Seq<u16> {
        self.table@
    }
}

/// One step of chain traversal, with `fuel` bounding the number of links
/// followed: a link of 0xFFF7 (bad cluster) or at least 0xFFF8 (end of
/// chain) ends the chain; a free link (0) is a corrupt chain; a link beyond
/// the table is out of range; running out of fuel means the chain is longer
/// than the table, which only a cycle can cause.
pub open spec fn spec_chain(table: Seq<u16>, c: u16, fuel: nat) -> Result<Seq<u16>, FatError>
    decreases fuel,
{
    if c >= 0xFFF8 || c == 0xFFF7 {
        Ok(Seq::empty())
    } else if c == 0 {
        Err(FatError::CorruptChain)
    } else if c as int >= table.len() {
        Err(FatError::ClusterOutOfRange)
    } else if fuel == 0 {
        Err(FatError::CorruptChain)
    } else {
        match spec_chain(table, table[c as int], (fuel - 1) as nat) {
            Ok(rest) => Ok(seq![c] + rest),
            Err(e) => Err(e),
        }
    }
}

/// The cluster chain beginning at `start`: empty for start 0 (an empty
/// file); otherwise the traversal with enough fuel for any acyclic chain.
pub open spec fn spec_chain_from(table: Seq<u16>, start: u16) -> Result<Seq<u16>, FatError> {
    if start == 0 {
        Ok(Seq::empty())
    } else {
        spec_chain(table, start, table.len())
    }
}

impl Fat16AllocTable {
    /// Materialises the allocation table from the head of `bytes`:
    /// `spec_cluster_cnt` 16-bit entries, then skips the whole FAT region
    /// (secondary copies are not validated against the primary). Fails with
    /// `ShortBuffer` exactly when the input holds neither all entries nor
    /// the whole region.
    pub fn parse<'a>(bytes: &'a [u8], bpb: &FatBPB) -> (r: Result<
        (Fat16AllocTable, &'a [u8]),
        FatError,
    >)
        ensures
            match r {
                Ok((t, rest)) => {
                    &&& 2 * spec_cluster_cnt(bpb) <= bytes@.len()
                    &&& spec_fat_size(bpb) <= bytes@.len()
                    &&& t@ == fat_table_of(bytes@, spec_cluster_cnt(bpb))
                    &&& rest@ == bytes@.skip(spec_fat_size(bpb))
                },
                Err(e) => e == FatError::ShortBuffer && (2 * spec_cluster_cnt(bpb) > bytes@.len()
                    || spec_fat_size(bpb) > bytes@.len()),
            },
    {
        let n = bytes.len();
        let nf: u64 = bpb.num_fats as u64;
        let spf: u64 = bpb.sectors_per_fat as u64;
        let bps: u64 = bpb.bytes_per_sector as u64;
        proof {
            assert(nf * spf <= 255 * 65535) by (nonlinear_arith)
                requires
                    nf <= 255,
                    spf <= 65535,
            ;
            assert(nf * spf * bps <= 255 * 65535 * 65535) by (nonlinear_arith)
                requires
                    nf * spf <= 255 * 65535,
                    bps <= 65535,
            ;
        }
        let fat_size: u64 = nf * spf * bps;
        let cnt: u64 = if bpb.sectors_per_cluster == 0 {
            0
        } else if bpb.total_sectors == 0 {
            (bpb.large_sectors / (bpb.sectors_per_cluster as u32)) as u64
        } else {
            (bpb.total_sectors / (bpb.sectors_per_cluster as u16)) as u64
        };
        proof {
            assert(cnt == spec_cluster_cnt(bpb));
            assert(fat_size == spec_fat_size(bpb));
        }
        if 2 * cnt > n as u64 || fat_size > n as u64 {
            return Err(FatError::ShortBuffer);
        }
        let cnt_us = cnt as usize;
        let mut table: Vec<u16> = Vec::new();
        let mut id: usize = 0;
        proof {
            assert(table@ =~= fat_table_of(bytes@, cnt as int).take(0));
        }
        while id < cnt_us
            invariant
                id <= cnt_us,
                cnt_us == spec_cluster_cnt(bpb),
                2 * cnt_us <= n,
                n == bytes@.len(),
                table@ == fat_table_of(bytes@, cnt_us as int).take(id as int),
            decreases cnt_us - id,
        {
            let entry = read_le16(bytes, 2 * id);
            table.push(entry);
            proof {
                assert(fat_table_of(bytes@, cnt_us as int).take(id + 1) =~= fat_table_of(
                    bytes@,
                    cnt_us as int,
                ).take(id as int).push(entry));
            }
            id = id + 1;
        }
        proof {
            assert(fat_table_of(bytes@, cnt_us as int).take(cnt_us as int) =~= fat_table_of(
                bytes@,
                cnt_us as int,
            ));
        }
        let rest = vstd::slice::slice_subrange(bytes, fat_size as usize, n);
        Ok((Fat16AllocTable { table }, rest))
    }

    /// Walks the chain beginning at `start_cluster`, collecting cluster
    /// numbers until an end-of-chain link (at least 0xFFF8) or a bad-cluster
    /// link (0xFFF7). Start 0 denotes an empty file and yields an empty
    /// chain. A free link (0) mid-chain and a chain longer than the table
    /// (a cycle) are `CorruptChain`; a link beyond the table is
    /// `ClusterOutOfRange`.
    pub fn get_cluster_chain(&self, start_cluster: u16) -> (r: Result<Vec<u16>, FatError>)
        ensures
            match r {
                Ok(chain) => spec_chain_from(self@, start_cluster) == Ok::<Seq<u16>, FatError>(
                    chain@,
                ),
                Err(e) => spec_chain_from(self@, start_cluster) == Err::<Seq<u16>, FatError>(e),
            },
    {
        let mut chain: Vec<u16> = Vec::new();
        if start_cluster == 0 {
            proof {
                assert(chain@ =~= Seq::<u16>::empty());
            }
            return Ok(chain);
        }
        let n = self.table.len();
        let mut cluster = start_cluster;
        let mut fuel = n;
        proof {
            assert(chain@ =~= Seq::<u16>::empty());
            match spec_chain(self@, cluster, fuel as nat) {
                Ok(rest) => {
                    assert(chain@ + rest =~= rest);
                },
                Err(_) => {},
            }
        }
        while cluster < 0xFFF8 && cluster != 0xFFF7
            invariant
                n == self@.len(),
                start_cluster != 0,
                fuel <= n,
                match spec_chain(self@, cluster, fuel as nat) {
                    Ok(rest) => spec_chain_from(self@, start_cluster) == Ok::<Seq<u16>, FatError>(
                        chain@ + rest,
                    ),
                    Err(e) => spec_chain_from(self@, start_cluster) == Err::<Seq<u16>, FatError>(
                        e,
                    ),
                },
            decreases fuel,
        {
            if cluster == 0 {
                return Err(FatError::CorruptChain);
            }
            if cluster as usize >= n {
                return Err(FatError::ClusterOutOfRange);
            }
            if fuel == 0 {
                return Err(FatError::CorruptChain);
            }
            let ghost acc_old = chain@;
            chain.push(cluster);
            let next = self.table[cluster as usize];
            proof {
                match spec_chain(self@, next, (fuel - 1) as nat) {
                    Ok(rest) => {
                        assert(acc_old + (seq![cluster] + rest) =~= chain@ + rest);
                    },
                    Err(_) => {},
                }
            }
            cluster = next;
            fuel = fuel - 1;
        }
        proof {
            assert(chain@ + Seq::<u16>::empty() =~= chain@);
        }
        Ok(chain)
    }
}

/// An in-memory FAT16 filesystem: the decoded boot sector, the allocation
/// table, the root directory listing, and the raw cluster region, whose
/// byte 0 belongs to cluster number 2.
#[derive(Debug)]
pub struct Fat16 {
    pub bpb: FatBPB,
    pub ebpb: Fat16EBPB,
    pub alloc_table: Fat16AllocTable,
    pub root_dir: Vec<FatDirEntry>,
    pub clusters: Vec<u8>,
}

/// The number of bytes in one cluster.
pub open spec fn spec_bpc(fs: &Fat16) -> int {
    fs.bpb.bytes_per_sector * fs.bpb.sectors_per_cluster
}

/// Whether cluster `c` lies entirely within the cluster region.
pub open spec fn cluster_in_range(fs: &Fat16, c: u16) -> bool {
    2 <= c && (c - 1) * spec_bpc(fs) <= fs.clusters@.len()
}

/// The bytes of cluster `c` within the cluster region.
pub open spec fn spec_cluster_bytes(fs: &Fat16, c: u16) -> Seq<u8> {
    fs.clusters@.subrange((c - 2) * spec_bpc(fs), (c - 1) * spec_bpc(fs))
}

/// The directory entries decoded from the clusters of `chain`, concatenated
/// in chain order; each cluster contributes its whole slots.
pub open spec fn spec_dir_clusters(fs: &Fat16, chain: Seq<u16>) -> Result<
    Seq<DirEntryModel>,
    FatError,
>
    decreases chain.len(),
{
    if chain.len() == 0 {
        Ok(Seq::empty())
    } else if !cluster_in_range(fs, chain[0]) {
        Err(FatError::ClusterOutOfRange)
    } else {
        match spec_parse_region(
            spec_cluster_bytes(fs, chain[0]).take(32 * (spec_bpc(fs) / 32)),
        ) {
            None => Err(FatError::EncodingError),
            Some(es) => match spec_dir_clusters(fs, chain.skip(1)) {
                Err(e) => Err(e),
                Ok(rest) => Ok(es + rest),
            },
        }
    }
}

/// The listing of the directory whose entry is `e`.
pub open spec fn spec_read_dir(fs: &Fat16, e: DirEntryModel) -> Result<
    Seq<DirEntryModel>,
    FatError,
> {
    match spec_chain_from(fs.alloc_table@, e.first_cluster as u16) {
        Err(er) => Err(er),
        Ok(chain) => spec_dir_clusters(fs, chain),
    }
}

/// The entries already collected, followed by what the clusters from
/// position `i` of `chain` still decode to, make up the whole listing.
pub open spec fn dir_cont(
    fs: &Fat16,
    chain: Seq<u16>,
    i: int,
    acc: Seq<DirEntryModel>,
) -> bool {
    match spec_dir_clusters(fs, chain.skip(i)) {
        Ok(rest) => spec_dir_clusters(fs, chain) == Ok::<Seq<DirEntryModel>, FatError>(
            acc + rest,
        ),
        Err(e) => spec_dir_clusters(fs, chain) == Err::<Seq<DirEntryModel>, FatError>(e),
    }
}

proof fn lemma_dir_cont_init(fs: &Fat16, chain: Seq<u16>)
    ensures
        dir_cont(fs, chain, 0, Seq::empty()),
{
    assert(chain.skip(0) =~= chain);
    match spec_dir_clusters(fs, chain) {
        Ok(rest) => {
            assert(Seq::<DirEntryModel>::empty() + rest =~= rest);
        },
        Err(_) => {},
    }
}

proof fn lemma_dir_cont_step(
    fs: &Fat16,
    chain: Seq<u16>,
    i: int,
    acc: Seq<DirEntryModel>,
    part: Seq<DirEntryModel>,
)
    requires
        0 <= i < chain.len(),
        dir_cont(fs, chain, i, acc),
        cluster_in_range(fs, chain[i]),
        spec_parse_region(spec_cluster_bytes(fs, chain[i]).take(32 * (spec_bpc(fs) / 32)))
            == Some(part),
    ensures
        dir_cont(fs, chain, i + 1, acc + part),
{
    assert(chain.skip(i)[0] == chain[i]);
    assert(chain.skip(i).skip(1) =~= chain.skip(i + 1));
    match spec_dir_clusters(fs, chain.skip(i + 1)) {
        Ok(rest) => {
            assert(acc + (part + rest) =~= (acc + part) + rest);
        },
        Err(_) => {},
    }
}

proof fn lemma_dir_cont_out_of_range(fs: &Fat16, chain: Seq<u16>, i: int, acc: Seq<DirEntryModel>)
    requires
        0 <= i < chain.len(),
        dir_cont(fs, chain, i, acc),
        !cluster_in_range(fs, chain[i]),
    ensures
        spec_dir_clusters(fs, chain) == Err::<Seq<DirEntryModel>, FatError>(
            FatError::ClusterOutOfRange,
        ),
{
    assert(chain.skip(i)[0] == chain[i]);
}

proof fn lemma_dir_cont_encoding(fs: &Fat16, chain: Seq<u16>, i: int, acc: Seq<DirEntryModel>)
    requires
        0 <= i < chain.len(),
        dir_cont(fs, chain, i, acc),
        cluster_in_range(fs, chain[i]),
        spec_parse_region(spec_cluster_bytes(fs, chain[i]).take(32 * (spec_bpc(fs) / 32)))
            is None,
    ensures
        spec_dir_clusters(fs, chain) == Err::<Seq<DirEntryModel>, FatError>(
            FatError::EncodingError,
        ),
{
    assert(chain.skip(i)[0] == chain[i]);
}

proof fn lemma_dir_cont_done(fs: &Fat16, chain: Seq<u16>, acc: Seq<DirEntryModel>)
    requires
        dir_cont(fs, chain, chain.len() as int, acc),
    ensures
        spec_dir_clusters(fs, chain) == Ok::<Seq<DirEntryModel>, FatError>(acc),
{
    assert(chain.skip(chain.len() as int) =~= Seq::<u16>::empty());
    assert(acc + Seq::<DirEntryModel>::empty() =~= acc);
}

impl Fat16 {
    /// Returns the bytes of cluster `cluster_number`; `ClusterOutOfRange`
    /// exactly when the cluster is reserved (below 2) or its slice exceeds
    /// the cluster region.
    fn read_cluster(&self, cluster_number: u16) -> (r: Result<&[u8], FatError>)
        ensures
            match r {
                Ok(data) => cluster_in_range(self, cluster_number) && data@ == spec_cluster_bytes(
                    self,
                    cluster_number,
                ),
                Err(e) => e == FatError::ClusterOutOfRange && !cluster_in_range(
                    self,
                    cluster_number,
                ),
            },
    {
        if cluster_number < 2 {
            return Err(FatError::ClusterOutOfRange);
        }
        let c: u64 = cluster_number as u64;
        let bps: u64 = self.bpb.bytes_per_sector as u64;
        let spc: u64 = self.bpb.sectors_per_cluster as u64;
        proof {
            assert(bps * spc <= 65535 * 255) by (nonlinear_arith)
                requires
                    bps <= 65535,
                    spc <= 255,
            ;
            assert((c - 2) * (bps * spc) <= 65533 * (65535 * 255)) by (nonlinear_arith)
                requires
                    2 <= c <= 65535,
                    bps * spc <= 65535 * 255,
            ;
        }
        let bpc: u64 = bps * spc;
        let head: u64 = (c - 2) * bpc;
        let len: u64 = self.clusters.len() as u64;
        if head + bpc > len {
            proof {
                assert((c - 2) * (bps * spc) + bps * spc == (c - 1) * (bps * spc))
                    by (nonlinear_arith);
            }
            return Err(FatError::ClusterOutOfRange);
        }
        proof {
            assert((c - 2) * (bps * spc) + bps * spc == (c - 1) * (bps * spc))
                by (nonlinear_arith);
        }
        Ok(
            vstd::slice::slice_subrange(
                self.clusters.as_slice(),
                head as usize,
                (head + bpc) as usize,
            ),
        )
    }

    /// Decodes the whole listing of the directory whose entry is
    /// `dir_entry`: every whole 32-byte slot of every cluster in its chain.
    #[verifier::rlimit(100)]
    fn read_dir_entry(&self, dir_entry: &FatDirEntry) -> (r: Result<Vec<FatDirEntry>, FatError>)
        ensures
            match r {
                Ok(dirs) => spec_read_dir(self, dir_entry@) == Ok::<Seq<DirEntryModel>, FatError>(
                    dirs.deep_view(),
                ),
                Err(e) => spec_read_dir(self, dir_entry@) == Err::<Seq<DirEntryModel>, FatError>(
                    e,
                ),
            },
    {
        let bps_us: usize = self.bpb.bytes_per_sector as usize;
        let spc_us: usize = self.bpb.sectors_per_cluster as usize;
        proof {
            assert(bps_us * spc_us <= 65535 * 255) by (nonlinear_arith)
                requires
                    bps_us <= 65535,
                    spc_us <= 255,
            ;
        }
        let bytes_per_cluster: usize = bps_us * spc_us;
        let entries_per_cluster: usize = bytes_per_cluster / 32;
        let chain = match self.alloc_table.get_cluster_chain(dir_entry.first_cluster as u16) {
            Ok(chain) => chain,
            Err(e) => {
                return Err(e);
            },
        };
        let mut dirs: Vec<FatDirEntry> = Vec::new();
        let mut i: usize = 0;
        proof {
            lemma_dir_cont_init(self, chain@);
            assert(dirs.deep_view() =~= Seq::<DirEntryModel>::empty());
        }
        while i < chain.len()
            invariant
                i <= chain@.len(),
                entries_per_cluster == spec_bpc(self) / 32,
                32 * entries_per_cluster <= spec_bpc(self),
                spec_chain_from(self.alloc_table@, dir_entry@.first_cluster as u16) == Ok::<
                    Seq<u16>,
                    FatError,
                >(chain@),
                dir_cont(self, chain@, i as int, dirs.deep_view()),
            decreases chain@.len() - i,
        {
            let cluster_number = chain[i];
            let cluster_data = match self.read_cluster(cluster_number) {
                Ok(d) => d,
                Err(e) => {
                    proof {
                        lemma_dir_cont_out_of_range(self, chain@, i as int, dirs.deep_view());
                    }
                    return Err(e);
                },
            };
            proof {
                let b = spec_bpc(self);
                assert((cluster_number - 1) * b - (cluster_number - 2) * b == b)
                    by (nonlinear_arith);
                assert(cluster_data@.len() == b);
            }
            let (part, _leftover) = match crate::fat::parse_region(
                cluster_data,
                entries_per_cluster,
            ) {
                Ok(p) => p,
                Err(e) => {
                    proof {
                        assert(32 * entries_per_cluster <= cluster_data@.len());
                        lemma_dir_cont_encoding(self, chain@, i as int, dirs.deep_view());
                    }
                    return Err(e);
                },
            };
            let ghost dv_old = dirs.deep_view();
            let ghost part_dv = part.deep_view();
            let mut part_vec = part;
            dirs.append(&mut part_vec);
            proof {
                assert(dirs.deep_view() =~= dv_old + part_dv);
                lemma_dir_cont_step(self, chain@, i as int, dv_old, part_dv);
            }
            i = i + 1;
        }
        proof {
            lemma_dir_cont_done(self, chain@, dirs.deep_view());
        }
        Ok(dirs)
    }
}

/// Whether entry name `n` case-folds to the (already folded) segment `seg`.
pub open spec fn name_matches(n: Seq<char>, seg: Seq<char>) -> bool {
    lower(n) == seg
}

/// The first entry of `entries` whose name case-folds to `seg`.
pub open spec fn first_match(entries: Seq<DirEntryModel>, seg: Seq<char>) -> Option<DirEntryModel>
    decreases entries.len(),
{
    if entries.len() == 0 {
        None
    } else if name_matches(entries[0].name, seg) {
        Some(entries[0])
    } else {
        first_match(entries.skip(1), seg)
    }
}

proof fn lemma_first_match_at(entries: Seq<DirEntryModel>, seg: Seq<char>, t: int)
    requires
        0 <= t <= entries.len(),
        forall|m: int| 0 <= m < t ==> !name_matches(entries[m].name, seg),
        t == entries.len() || name_matches(entries[t].name, seg),
    ensures
        t == entries.len() ==> first_match(entries, seg) is None,
        t < entries.len() ==> first_match(entries, seg) == Some(entries[t]),
    decreases t,
{
    if t == 0 {
    } else {
        assert(!name_matches(entries[0].name, seg));
        lemma_first_match_at(entries.skip(1), seg, t - 1);
    }
}

/// The entry an absolute path resolves to against `entries`: each segment
/// but the last must name a directory, whose listing the next segment is
/// resolved against; the last segment yields the entry itself. A segment
/// that matches nothing — or matches a non-directory where a directory is
/// needed — is `NotFound`.
pub open spec fn spec_find_from(
    fs: &Fat16,
    entries: Seq<DirEntryModel>,
    segs: Seq<Seq<char>>,
) -> Result<DirEntryModel, FatError>
    decreases segs.len(),
{
    if segs.len() == 0 {
        Err(FatError::NotFound)
    } else if segs.len() == 1 {
        match first_match(entries, segs[0]) {
            None => Err(FatError::NotFound),
            Some(e) => Ok(e),
        }
    } else {
        match first_match(entries, segs[0]) {
            None => Err(FatError::NotFound),
            Some(e) => {
                if !e.is_dir() {
                    Err(FatError::NotFound)
                } else {
                    match spec_read_dir(fs, e) {
                        Err(er) => Err(er),
                        Ok(list) => spec_find_from(fs, list, segs.skip(1)),
                    }
                }
            },
        }
    }
}

/// The entry the segments of an absolute path resolve to, starting from the
/// root directory.
pub open spec fn spec_find(fs: &Fat16, segs: Seq<Seq<char>>) -> Result<DirEntryModel, FatError> {
    spec_find_from(fs, fs.root_dir.deep_view(), segs)
}

proof fn lemma_find_not_found(fs: &Fat16, cur: Seq<DirEntryModel>, segs: Seq<Seq<char>>, i: int)
    requires
        0 <= i < segs.len(),
        first_match(cur, segs[i]) is None,
    ensures
        spec_find_from(fs, cur, segs.skip(i)) == Err::<DirEntryModel, FatError>(
            FatError::NotFound,
        ),
{
    assert(segs.skip(i)[0] == segs[i]);
}

proof fn lemma_find_not_dir(
    fs: &Fat16,
    cur: Seq<DirEntryModel>,
    segs: Seq<Seq<char>>,
    i: int,
    e: DirEntryModel,
)
    requires
        0 <= i < segs.len() - 1,
        first_match(cur, segs[i]) == Some(e),
        !e.is_dir(),
    ensures
        spec_find_from(fs, cur, segs.skip(i)) == Err::<DirEntryModel, FatError>(
            FatError::NotFound,
        ),
{
    assert(segs.skip(i)[0] == segs[i]);
}

proof fn lemma_find_dir_err(
    fs: &Fat16,
    cur: Seq<DirEntryModel>,
    segs: Seq<Seq<char>>,
    i: int,
    e: DirEntryModel,
    er: FatError,
)
    requires
        0 <= i < segs.len() - 1,
        first_match(cur, segs[i]) == Some(e),
        e.is_dir(),
        spec_read_dir(fs, e) == Err::<Seq<DirEntryModel>, FatError>(er),
    ensures
        spec_find_from(fs, cur, segs.skip(i)) == Err::<DirEntryModel, FatError>(er),
{
    assert(segs.skip(i)[0] == segs[i]);
}

proof fn lemma_find_descend(
    fs: &Fat16,
    cur: Seq<DirEntryModel>,
    segs: Seq<Seq<char>>,
    i: int,
    e: DirEntryModel,
    next: Seq<DirEntryModel>,
)
    requires
        0 <= i < segs.len() - 1,
        first_match(cur, segs[i]) == Some(e),
        e.is_dir(),
        spec_read_dir(fs, e) == Ok::<Seq<DirEntryModel>, FatError>(next),
    ensures
        spec_find_from(fs, cur, segs.skip(i)) == spec_find_from(fs, next, segs.skip(i + 1)),
{
    assert(segs.skip(i)[0] == segs[i]);
    assert(segs.skip(i).skip(1) =~= segs.skip(i + 1));
}

proof fn lemma_find_last(
    fs: &Fat16,
    cur: Seq<DirEntryModel>,
    segs: Seq<Seq<char>>,
    i: int,
    e: DirEntryModel,
)
    requires
        0 <= i == segs.len() - 1,
        first_match(cur, segs[i]) == Some(e),
    ensures
        spec_find_from(fs, cur, segs.skip(i)) == Ok::<DirEntryModel, FatError>(e),
{
    assert(segs.skip(i)[0] == segs[i]);
}

/// Copies a directory entry field by field.
fn entry_copy(e: &FatDirEntry) -> (r: FatDirEntry)
    ensures
        r@ == e@,
{
    let r = FatDirEntry {
        name: e.name.clone(),
        attribute: e.attribute,
        reserved: e.reserved,
        creation_time: e.creation_time,
        creation_date: e.creation_date,
        last_access_date: e.last_access_date,
        last_modify_time: e.last_modify_time,
        last_modify_date: e.last_modify_date,
        first_cluster: e.first_cluster,
        file_size: e.file_size,
    };
    proof {
        assert(r@ =~= e@);
    }
    r
}

/// Finds the first entry of `entries` whose lowercased name equals `seg`.
fn find_in(entries: &Vec<FatDirEntry>, seg: &String) -> (r: Option<usize>)
    ensures
        match r {
            Some(j) => j < entries@.len() && first_match(entries.deep_view(), seg@) == Some(
                entries@[j as int]@,
            ),
            None => first_match(entries.deep_view(), seg@) is None,
        },
{
    let n = entries.len();
    let mut j: usize = 0;
    while j < n
        invariant
            j <= n,
            n == entries@.len(),
            forall|m: int| 0 <= m < j ==> !name_matches(#[trigger] entries.deep_view()[m].name, seg@),
        decreases n - j,
    {
        let lowered = crate::utils::lower_str(entries[j].name.as_str());
        if lowered.eq(seg) {
            proof {
                assert(name_matches(entries.deep_view()[j as int].name, seg@));
                lemma_first_match_at(entries.deep_view(), seg@, j as int);
            }
            return Some(j);
        }
        proof {
            assert(!name_matches(entries.deep_view()[j as int].name, seg@));
        }
        j = j + 1;
    }
    proof {
        lemma_first_match_at(entries.deep_view(), seg@, n as int);
    }
    None
}

impl Fat16 {
    /// Resolves `path` against the root directory, descending through the
    /// listing of each matched directory, and returns the entry the final
    /// segment names.
    #[verifier::rlimit(100)]
    fn find_dir_entry(&self, path: &Path) -> (r: Result<FatDirEntry, FatError>)
        ensures
            match r {
                Ok(e) => spec_find(self, spec_segments(path@)) == Ok::<DirEntryModel, FatError>(
                    e@,
                ),
                Err(er) => spec_find(self, spec_segments(path@)) == Err::<
                    DirEntryModel,
                    FatError,
                >(er),
            },
    {
        let segs = path.parse();
        let nsegs = segs.len();
        if nsegs == 0 {
            return Err(FatError::NotFound);
        }
        let ghost gsegs = spec_segments(path@);
        let mut owned: Vec<FatDirEntry> = Vec::new();
        let mut at_root: bool = true;
        let mut i: usize = 0;
        let ghost mut cur: Seq<DirEntryModel> = self.root_dir.deep_view();
        proof {
            assert(gsegs.skip(0) =~= gsegs);
        }
        while i + 1 < nsegs
            invariant
                i + 1 <= nsegs,
                nsegs == segs@.len(),
                gsegs == segs.deep_view(),
                gsegs == spec_segments(path@),
                at_root ==> cur == self.root_dir.deep_view(),
                !at_root ==> cur == owned.deep_view(),
                spec_find_from(self, cur, gsegs.skip(i as int)) == spec_find(self, gsegs),
            decreases nsegs - i,
        {
            let list: &Vec<FatDirEntry> = if at_root {
                &self.root_dir
            } else {
                &owned
            };
            proof {
                assert(list.deep_view() == cur);
                assert(gsegs.skip(i as int)[0] == segs@[i as int]@);
            }
            let j = match find_in(list, &segs[i]) {
                None => {
                    proof {
                        lemma_find_not_found(self, cur, gsegs, i as int);
                    }
                    return Err(FatError::NotFound);
                },
                Some(j) => j,
            };
            let e: &FatDirEntry = &list[j];
            proof {
                assert(first_match(cur, gsegs[i as int]) == Some(e@));
            }
            if e.attribute & 0x10 == 0 {
                proof {
                    assert(!e@.is_dir());
                    lemma_find_not_dir(self, cur, gsegs, i as int, e@);
                }
                return Err(FatError::NotFound);
            }
            proof {
                assert(e@.is_dir());
            }
            let next = match self.read_dir_entry(e) {
                Ok(next) => next,
                Err(er) => {
                    proof {
                        lemma_find_dir_err(self, cur, gsegs, i as int, e@, er);
                    }
                    return Err(er);
                },
            };
            proof {
                lemma_find_descend(self, cur, gsegs, i as int, e@, next.deep_view());
                cur = next.deep_view();
            }
            owned = next;
            at_root = false;
            i = i + 1;
        }
        let list: &Vec<FatDirEntry> = if at_root {
            &self.root_dir
        } else {
            &owned
        };
        proof {
            assert(list.deep_view() == cur);
            assert(gsegs.skip(i as int)[0] == segs@[i as int]@);
        }
        match find_in(list, &segs[i]) {
            None => {
                proof {
                    lemma_find_not_found(self, cur, gsegs, i as int);
                }
                Err(FatError::NotFound)
            },
            Some(j) => {
                proof {
                    assert(first_match(cur, gsegs[i as int]) == Some(list@[j as int]@));
                    lemma_find_last(self, cur, gsegs, i as int, list@[j as int]@);
                }
                Ok(entry_copy(&list[j]))
            },
        }
    }
}

/// The bytes of the clusters in `chain`, concatenated in chain order.
pub open spec fn spec_cat_clusters(fs: &Fat16, chain: Seq<u16>) -> Result<Seq<u8>, FatError>
    decreases chain.len(),
{
    if chain.len() == 0 {
        Ok(Seq::empty())
    } else if !cluster_in_range(fs, chain[0]) {
        Err(FatError::ClusterOutOfRange)
    } else {
        match spec_cat_clusters(fs, chain.skip(1)) {
            Err(e) => Err(e),
            Ok(rest) => Ok(spec_cluster_bytes(fs, chain[0]) + rest),
        }
    }
}

/// The contents of the file behind entry `e`: its cluster chain's bytes,
/// truncated to `e.file_size`. A directory entry is `NotAFile`.
pub open spec fn spec_read_file_entry(fs: &Fat16, e: DirEntryModel) -> Result<Seq<u8>, FatError> {
    if e.is_dir() {
        Err(FatError::NotAFile)
    } else {
        match spec_chain_from(fs.alloc_table@, e.first_cluster as u16) {
            Err(er) => Err(er),
            Ok(chain) => match spec_cat_clusters(fs, chain) {
                Err(er) => Err(er),
                Ok(data) => Ok(
                    data.take(
                        if e.file_size as int <= data.len() {
                            e.file_size as int
                        } else {
                            data.len() as int
                        },
                    ),
                ),
            },
        }
    }
}

/// What `read_file` returns for the path segments `segs`.
pub open spec fn spec_read_file(fs: &Fat16, segs: Seq<Seq<char>>) -> Result<Seq<u8>, FatError> {
    match spec_find(fs, segs) {
        Err(e) => Err(e),
        Ok(e) => spec_read_file_entry(fs, e),
    }
}

/// The entries already collected, followed by the bytes the clusters from
/// position `i` of `chain` still carry, make up the whole file data.
pub open spec fn cat_cont(fs: &Fat16, chain: Seq<u16>, i: int, acc: Seq<u8>) -> bool {
    match spec_cat_clusters(fs, chain.skip(i)) {
        Ok(rest) => spec_cat_clusters(fs, chain) == Ok::<Seq<u8>, FatError>(acc + rest),
        Err(e) => spec_cat_clusters(fs, chain) == Err::<Seq<u8>, FatError>(e),
    }
}

proof fn lemma_cat_cont_init(fs: &Fat16, chain: Seq<u16>)
    ensures
        cat_cont(fs, chain, 0, Seq::empty()),
{
    assert(chain.skip(0) =~= chain);
    match spec_cat_clusters(fs, chain) {
        Ok(rest) => {
            assert(Seq::<u8>::empty() + rest =~= rest);
        },
        Err(_) => {},
    }
}

proof fn lemma_cat_cont_step(fs: &Fat16, chain: Seq<u16>, i: int, acc: Seq<u8>)
    requires
        0 <= i < chain.len(),
        cat_cont(fs, chain, i, acc),
        cluster_in_range(fs, chain[i]),
    ensures
        cat_cont(fs, chain, i + 1, acc + spec_cluster_bytes(fs, chain[i])),
{
    assert(chain.skip(i)[0] == chain[i]);
    assert(chain.skip(i).skip(1) =~= chain.skip(i + 1));
    match spec_cat_clusters(fs, chain.skip(i + 1)) {
        Ok(rest) => {
            assert(acc + (spec_cluster_bytes(fs, chain[i]) + rest) =~= (acc
                + spec_cluster_bytes(fs, chain[i])) + rest);
        },
        Err(_) => {},
    }
}

proof fn lemma_cat_cont_out_of_range(fs: &Fat16, chain: Seq<u16>, i: int, acc: Seq<u8>)
    requires
        0 <= i < chain.len(),
        cat_cont(fs, chain, i, acc),
        !cluster_in_range(fs, chain[i]),
    ensures
        spec_cat_clusters(fs, chain) == Err::<Seq<u8>, FatError>(FatError::ClusterOutOfRange),
{
    assert(chain.skip(i)[0] == chain[i]);
}

proof fn lemma_cat_cont_done(fs: &Fat16, chain: Seq<u16>, acc: Seq<u8>)
    requires
        cat_cont(fs, chain, chain.len() as int, acc),
    ensures
        spec_cat_clusters(fs, chain) == Ok::<Seq<u8>, FatError>(acc),
{
    assert(chain.skip(chain.len() as int) =~= Seq::<u16>::empty());
    assert(acc + Seq::<u8>::empty() =~= acc);
}

impl Fat16 {
    /// Reads the contents of the file at the absolute path `path`: the
    /// bytes of its cluster chain, truncated to the entry's `file_size`.
    #[verifier::rlimit(100)]
    pub fn read_file(&self, path: &Path) -> (r: Result<Vec<u8>, FatError>)
        ensures
            match r {
                Ok(data) => spec_read_file(self, spec_segments(path@)) == Ok::<Seq<u8>, FatError>(
                    data@,
                ),
                Err(e) => spec_read_file(self, spec_segments(path@)) == Err::<Seq<u8>, FatError>(
                    e,
                ),
            },
    {
        let entry = match self.find_dir_entry(path) {
            Ok(e) => e,
            Err(e) => {
                return Err(e);
            },
        };
        if entry.attribute & 0x10 != 0 {
            proof {
                assert(entry@.is_dir());
            }
            return Err(FatError::NotAFile);
        }
        proof {
            assert(!entry@.is_dir());
        }
        let chain = match self.alloc_table.get_cluster_chain(entry.first_cluster as u16) {
            Ok(c) => c,
            Err(e) => {
                return Err(e);
            },
        };
        let mut file: Vec<u8> = Vec::new();
        let mut i: usize = 0;
        proof {
            lemma_cat_cont_init(self, chain@);
            assert(file@ =~= Seq::<u8>::empty());
        }
        while i < chain.len()
            invariant
                i <= chain@.len(),
                spec_find(self, spec_segments(path@)) == Ok::<DirEntryModel, FatError>(entry@),
                !entry@.is_dir(),
                spec_chain_from(self.alloc_table@, entry@.first_cluster as u16) == Ok::<
                    Seq<u16>,
                    FatError,
                >(chain@),
                cat_cont(self, chain@, i as int, file@),
            decreases chain@.len() - i,
        {
            let cluster_number = chain[i];
            let cluster_data = match self.read_cluster(cluster_number) {
                Ok(d) => d,
                Err(e) => {
                    proof {
                        lemma_cat_cont_out_of_range(self, chain@, i as int, file@);
                    }
                    return Err(e);
                },
            };
            let ghost acc_old = file@;
            let mut part = vstd::slice::slice_to_vec(cluster_data);
            file.append(&mut part);
            proof {
                lemma_cat_cont_step(self, chain@, i as int, acc_old);
            }
            i = i + 1;
        }
        proof {
            lemma_cat_cont_done(self, chain@, file@);
        }
        let size = entry.file_size as usize;
        let ghost whole = file@;
        if size < file.len() {
            file.truncate(size);
        }
        proof {
            assert(file@ =~= whole.take(
                if entry@.file_size as int <= whole.len() {
                    entry@.file_size as int
                } else {
                    whole.len() as int
                },
            ));
        }
        Ok(file)
    }
}

/// Whether the segments denote the root directory itself: the path `/`.
pub open spec fn is_root_segs(segs: Seq<Seq<char>>) -> bool {
    segs.len() == 1 && segs[0].len() == 0
}

/// What `read_directory` returns: the root listing for `/`, otherwise the
/// listing of the directory the path resolves to.
pub open spec fn spec_read_directory(fs: &Fat16, segs: Seq<Seq<char>>) -> Result<
    Seq<DirEntryModel>,
    FatError,
> {
    if is_root_segs(segs) {
        Ok(fs.root_dir.deep_view())
    } else {
        match spec_find(fs, segs) {
            Err(e) => Err(e),
            Ok(e) => {
                if !e.is_dir() {
                    Err(FatError::NotADirectory)
                } else {
                    spec_read_dir(fs, e)
                }
            },
        }
    }
}

/// Copies a list of directory entries field by field.
fn copy_entries(v: &Vec<FatDirEntry>) -> (r: Vec<FatDirEntry>)
    ensures
        r.deep_view() == v.deep_view(),
{
    let n = v.len();
    let mut out: Vec<FatDirEntry> = Vec::new();
    let mut i: usize = 0;
    proof {
        assert(out.deep_view() =~= v.deep_view().take(0));
    }
    while i < n
        invariant
            i <= n,
            n == v@.len(),
            out.deep_view() == v.deep_view().take(i as int),
        decreases n - i,
    {
        let ghost dv_old = out.deep_view();
        out.push(entry_copy(&v[i]));
        proof {
            assert(out.deep_view() =~= dv_old.push(v@[i as int]@));
            assert(v.deep_view().take(i + 1) =~= v.deep_view().take(i as int).push(
                v.deep_view()[i as int],
            ));
        }
        i = i + 1;
    }
    proof {
        assert(v.deep_view().take(n as int) =~= v.deep_view());
    }
    out
}

impl Fat16 {
    /// Lists the directory at the absolute path `path`. The root path `/`
    /// yields the root directory itself, which is not cluster-backed in
    /// FAT16; any other path is resolved and its directory's clusters are
    /// decoded.
    pub fn read_directory(&self, path: &Path) -> (r: Result<Vec<FatDirEntry>, FatError>)
        ensures
            match r {
                Ok(list) => spec_read_directory(self, spec_segments(path@)) == Ok::<
                    Seq<DirEntryModel>,
                    FatError,
                >(list.deep_view()),
                Err(e) => spec_read_directory(self, spec_segments(path@)) == Err::<
                    Seq<DirEntryModel>,
                    FatError,
                >(e),
            },
    {
        let segs = path.parse();
        if segs.len() == 1 && segs[0].as_str().is_empty() {
            proof {
                assert(segs.deep_view()[0] == segs@[0]@);
                assert(is_root_segs(spec_segments(path@)));
            }
            return Ok(copy_entries(&self.root_dir));
        }
        proof {
            if segs.deep_view().len() == 1 {
                assert(segs.deep_view()[0] == segs@[0]@);
            }
            assert(!is_root_segs(spec_segments(path@)));
        }
        let entry = match self.find_dir_entry(path) {
            Ok(e) => e,
            Err(e) => {
                return Err(e);
            },
        };
        if entry.attribute & 0x10 == 0 {
            proof {
                assert(!entry@.is_dir());
            }
            return Err(FatError::NotADirectory);
        }
        proof {
            assert(entry@.is_dir());
        }
        match self.read_dir_entry(&entry) {
            Ok(list) => Ok(list),
            Err(e) => Err(e),
        }
    }
}

/// The FAT-region size computed from the raw boot sector: FAT copies times
/// sectors per FAT times bytes per sector.
pub open spec fn fat_size_of(b: Seq<u8>) -> int {
    b[16] * le16(b, 22) * le16(b, 11)
}

/// The allocation-entry count computed from the raw boot sector.
pub open spec fn cnt_of(b: Seq<u8>) -> int {
    if b[13] == 0 {
        0
    } else if le16(b, 19) == 0 {
        le32(b, 32) as int / b[13] as int
    } else {
        le16(b, 19) as int / b[13] as int
    }
}

/// The root-directory region of the raw image: directly after the FAT
/// region, one 32-byte slot per root entry.
pub open spec fn root_region_of(b: Seq<u8>) -> Seq<u8> {
    b.skip(512 + fat_size_of(b)).take(32 * le16(b, 17))
}

/// The error `open` reports on image `b`, or `None` when `b` opens: the
/// boot sector must be whole, the signature `55 AA`, the allocation table
/// and FAT region within the buffer, the root region within what follows,
/// and every long filename in the root region valid UTF-16.
pub open spec fn spec_open_err(b: Seq<u8>) -> Option<FatError> {
    if b.len() < 512 {
        Some(FatError::ShortBuffer)
    } else if !(b[510] == 0x55 && b[511] == 0xAA) {
        Some(FatError::InvalidSignature)
    } else if 2 * cnt_of(b) > b.len() - 512 || fat_size_of(b) > b.len() - 512 {
        Some(FatError::ShortBuffer)
    } else if 32 * le16(b, 17) > b.len() - 512 - fat_size_of(b) {
        Some(FatError::ShortBuffer)
    } else if spec_parse_region(root_region_of(b)) is None {
        Some(FatError::EncodingError)
    } else {
        None
    }
}

impl Fat16 {
    /// Decodes a FAT16 image held in `bytes`: the BPB, the extended BPB
    /// (whose boot-partition signature must be `55 AA`), the allocation
    /// table, the root directory, and the cluster region that makes up the
    /// rest of the buffer.
    #[verifier::rlimit(100)]
    pub fn open(bytes: &[u8]) -> (r: Result<Fat16, FatError>)
        ensures
            match r {
                Ok(fs) => {
                    &&& spec_open_err(bytes@) is None
                    &&& bytes@.len() >= 512
                    &&& bpb_matches(fs.bpb, bytes@)
                    &&& ebpb_matches(fs.ebpb, bytes@.skip(36))
                    &&& fs.alloc_table@ == fat_table_of(
                        bytes@.skip(512),
                        spec_cluster_cnt(&fs.bpb),
                    )
                    &&& spec_parse_region(root_region_of(bytes@)) == Some(fs.root_dir.deep_view())
                    &&& fs.clusters@ == bytes@.skip(
                        512 + spec_fat_size(&fs.bpb) + 32 * fs.bpb.root_entry_count,
                    )
                },
                Err(e) => spec_open_err(bytes@) == Some(e),
            },
    {
        let (bpb, rest1) = match FatBPB::parse(bytes) {
            Ok(p) => p,
            Err(e) => {
                return Err(e);
            },
        };
        let (ebpb, rest2) = match Fat16EBPB::parse(rest1) {
            Ok(p) => p,
            Err(e) => {
                return Err(e);
            },
        };
        proof {
            assert(bytes@.len() >= 512);
            assert(rest1@[474] == bytes@[510]);
            assert(rest1@[475] == bytes@[511]);
            assert(ebpb.boot_partition_signature@.len() == 2);
            assert(ebpb.boot_partition_signature@[0] == bytes@[510]);
            assert(ebpb.boot_partition_signature@[1] == bytes@[511]);
        }
        if !(ebpb.boot_partition_signature[0] == 0x55 && ebpb.boot_partition_signature[1]
            == 0xAA) {
            return Err(FatError::InvalidSignature);
        }
        proof {
            assert(rest2@ =~= bytes@.skip(512));
            assert(spec_cluster_cnt(&bpb) == cnt_of(bytes@));
            assert(spec_fat_size(&bpb) == fat_size_of(bytes@));
        }
        let (alloc_table, rest3) = match Fat16AllocTable::parse(rest2, &bpb) {
            Ok(p) => p,
            Err(e) => {
                return Err(e);
            },
        };
        proof {
            assert(rest3@ =~= bytes@.skip(512 + spec_fat_size(&bpb)));
            assert(rest3@.take(32 * bpb.root_entry_count as int) =~= root_region_of(bytes@));
        }
        let (root_dir, rest4) = match FatDirEntry::parses(rest3, bpb.root_entry_count) {
            Ok(p) => p,
            Err(e) => {
                return Err(e);
            },
        };
        proof {
            assert(rest4@ =~= bytes@.skip(
                512 + spec_fat_size(&bpb) + 32 * bpb.root_entry_count,
            ));
        }
        let clusters = vstd::slice::slice_to_vec(rest4);
        Ok(Fat16 { bpb, ebpb, alloc_table, root_dir, clusters })
    }
}

/// Law: every entry a cluster-backed directory listing returns draws its
/// first cluster verbatim from a slot of the listed clusters; so when every
/// whole slot of every cluster in the chain stores a first-cluster field
/// that is 0 (an empty file) or lies in 2..`cnt`, every returned entry's
/// `first_cluster` does too. Together with `lemma_entries_cluster_bounds`
/// applied to the root region, this covers every listing the facade hands
/// out.
pub proof fn lemma_dir_entries_cluster_bounds(fs: &Fat16, chain: Seq<u16>, cnt: int)
    requires
        forall|j: int|
            0 <= j < chain.len() ==> crate::fat::slots_cluster_ok(
                #[trigger] spec_cluster_bytes(fs, chain[j]).take(32 * (spec_bpc(fs) / 32)),
                cnt,
            ),
    ensures
        spec_dir_clusters(fs, chain) matches Ok(es) ==> forall|i: int|
            0 <= i < es.len() ==> (#[trigger] es[i].first_cluster == 0 || (2
                <= es[i].first_cluster && es[i].first_cluster < cnt)),
    decreases chain.len(),
{
    if chain.len() == 0 {
    } else if cluster_in_range(fs, chain[0]) {
        let region0 = spec_cluster_bytes(fs, chain[0]).take(32 * (spec_bpc(fs) / 32));
        match spec_parse_region(region0) {
            None => {},
            Some(part) => {
                crate::fat::lemma_entries_cluster_bounds(region0, cnt);
                assert forall|j: int|
                    0 <= j < chain.skip(1).len() implies crate::fat::slots_cluster_ok(
                    #[trigger] spec_cluster_bytes(fs, chain.skip(1)[j]).take(
                        32 * (spec_bpc(fs) / 32),
                    ),
                    cnt,
                ) by {
                    assert(chain.skip(1)[j] == chain[j + 1]);
                }
                lemma_dir_entries_cluster_bounds(fs, chain.skip(1), cnt);
                match spec_dir_clusters(fs, chain.skip(1)) {
                    Err(_) => {},
                    Ok(rest) => {
                        let es = part + rest;
                        assert(spec_dir_clusters(fs, chain) == Ok::<
                            Seq<DirEntryModel>,
                            FatError,
                        >(es));
                        assert forall|i: int|
                            0 <= i < es.len() implies (#[trigger] es[i].first_cluster == 0 || (2
                            <= es[i].first_cluster && es[i].first_cluster < cnt)) by {
                            if i < part.len() {
                                assert(es[i] == part[i]);
                            } else {
                                assert(es[i] == rest[i - part.len()]);
                            }
                        }
                    },
                }
            },
        }
    }
}

/// Law: opening succeeds exactly when the boot-partition signature is
/// `55 AA` and the buffer is long enough for the boot sector, the whole FAT
/// region and the root directory. Stated for images whose allocation table
/// lies within their FAT region and whose root region decodes: an unpaired
/// UTF-16 surrogate in a root long filename also makes an open fail.
pub proof fn lemma_open_succeeds(b: Seq<u8>)
    requires
        b.len() >= 512 ==> 2 * cnt_of(b) <= fat_size_of(b),
        b.len() >= 512 ==> spec_parse_region(root_region_of(b)) is Some,
    ensures
        spec_open_err(b) is None <==> (b.len() >= 512 && b.len() >= 512 + fat_size_of(b) + 32
            * le16(b, 17) && b[510] == 0x55 && b[511] == 0xAA),
{
}

proof fn lemma_cat_len(fs: &Fat16, chain: Seq<u16>)
    ensures
        spec_cat_clusters(fs, chain) matches Ok(data) ==> data.len() == chain.len() * spec_bpc(
            fs,
        ),
    decreases chain.len(),
{
    if chain.len() == 0 {
    } else if cluster_in_range(fs, chain[0]) {
        lemma_cat_len(fs, chain.skip(1));
        let c = chain[0];
        let bpc = spec_bpc(fs);
        assert((c - 1) * bpc - (c - 2) * bpc == bpc) by (nonlinear_arith);
        assert((chain.len() - 1) * bpc + bpc == chain.len() * bpc) by (nonlinear_arith);
    }
}

/// Law: a successful read of a file returns exactly `file_size` bytes
/// whenever the file's cluster chain carries at least that many bytes; in
/// every case it returns the lesser of `file_size` and the chain's byte
/// count.
pub proof fn lemma_read_file_size(fs: &Fat16, segs: Seq<Seq<char>>)
    ensures
        match (spec_find(fs, segs), spec_read_file(fs, segs)) {
            (Ok(e), Ok(data)) => {
                let chain = spec_chain_from(fs.alloc_table@, e.first_cluster as u16)->Ok_0;
                data.len() == if e.file_size as int <= chain.len() * spec_bpc(fs) {
                    e.file_size as int
                } else {
                    chain.len() * spec_bpc(fs)
                }
            },
            _ => true,
        },
{
    match spec_find(fs, segs) {
        Ok(e) => {
            match spec_read_file(fs, segs) {
                Ok(_) => {
                    let chain = spec_chain_from(fs.alloc_table@, e.first_cluster as u16)->Ok_0;
                    lemma_cat_len(fs, chain);
                },
                Err(_) => {},
            }
        },
        Err(_) => {},
    }
}

} // verus!
