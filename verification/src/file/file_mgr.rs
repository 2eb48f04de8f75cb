use vstd::prelude::*;
use crate::file::block_id::BlockId;
use crate::file::codec::zeros;
use crate::file::page::Page;

verus! {

/// What a store holds: for each file that exists, its blocks, first to last.
pub type Disk = Map<Seq<char>, Seq<Seq<u8>>>;

/// The blocks of the file `name`; none where the file does not exist.
pub open spec fn blocks_of(disk: Disk, name: Seq<char>) -> Seq<Seq<u8>> {
    if disk.contains_key(name) {
        disk[name]
    } else {
        Seq::empty()
    }
}

/// `blocks`, with as many zero blocks of `bs` bytes added as it takes for block `n`
/// to exist.
pub open spec fn extended(blocks: Seq<Seq<u8>>, n: nat, bs: nat) -> Seq<Seq<u8>> {
    if n < blocks.len() {
        blocks
    } else {
        blocks + Seq::new((n + 1 - blocks.len()) as nat, |i: int| zeros(bs))
    }
}

/// The store after block `n` of the file `name` has been touched: the file exists
/// and reaches up to that block.
pub open spec fn touched(disk: Disk, name: Seq<char>, n: nat, bs: nat) -> Disk {
    disk.insert(name, extended(blocks_of(disk, name), n, bs))
}

/// The store after `bytes` has been written to block `n` of the file `name`.
pub open spec fn written(disk: Disk, name: Seq<char>, n: nat, bs: nat, bytes: Seq<u8>) -> Disk {
    disk.insert(name, extended(blocks_of(disk, name), n, bs).update(n as int, bytes))
}

/// The store after the file `name` has grown by one zero block.
pub open spec fn grown(disk: Disk, name: Seq<char>, bs: nat) -> Disk {
    disk.insert(name, blocks_of(disk, name).push(zeros(bs)))
}

/// What block `n` of the file `name` reads as: its bytes, or zeros where it does
/// not exist yet.
pub open spec fn block_at(disk: Disk, name: Seq<char>, n: nat, bs: nat) -> Seq<u8> {
    if n < blocks_of(disk, name).len() {
        blocks_of(disk, name)[n as int]
    } else {
        zeros(bs)
    }
}

/// Touching a block changes what no block reads as.
pub proof fn lemma_touched_block_at(disk: Disk, name: Seq<char>, n: nat, bs: nat)
    ensures
        forall|f: Seq<char>, k: nat| #[trigger]
            block_at(touched(disk, name, n, bs), f, k, bs) == block_at(disk, f, k, bs),
        n < blocks_of(touched(disk, name, n, bs), name).len(),
{
}

/// Writing a block changes what that block reads as, and nothing else.
pub proof fn lemma_written_block_at(disk: Disk, name: Seq<char>, n: nat, bs: nat, bytes: Seq<u8>)
    ensures
        forall|f: Seq<char>, k: nat| #[trigger]
            block_at(written(disk, name, n, bs, bytes), f, k, bs) == if f == name && k == n {
                bytes
            } else {
                block_at(disk, f, k, bs)
            },
{
}

/// Growing a file changes what no block reads as.
pub proof fn lemma_grown_block_at(disk: Disk, name: Seq<char>, bs: nat)
    ensures
        forall|f: Seq<char>, k: nat| #[trigger]
            block_at(grown(disk, name, bs), f, k, bs) == block_at(disk, f, k, bs),
{
}

struct StoredFile {
    name: String,
    blocks: Vec<Vec<u8>>,
}

spec fn blocks_view(blocks: Seq<Vec<u8>>) -> Seq<Seq<u8>> {
    Seq::new(blocks.len(), |i: int| blocks[i]@)
}

spec fn has_file(files: Seq<StoredFile>, name: Seq<char>) -> bool {
    exists|i: int| 0 <= i < files.len() && #[trigger] files[i].name@ == name
}

spec fn file_index(files: Seq<StoredFile>, name: Seq<char>) -> int {
    choose|i: int| 0 <= i < files.len() && #[trigger] files[i].name@ == name
}

spec fn files_wf(files: Seq<StoredFile>, bs: nat) -> bool {
    &&& forall|i: int, j: int|
        0 <= i < j < files.len() ==> #[trigger] files[i].name@ != #[trigger] files[j].name@
    &&& forall|i: int, k: int|
        0 <= i < files.len() && 0 <= k < files[i].blocks@.len() ==> (#[trigger] files[i].blocks@[k])@.len()
            == bs
}

spec fn files_view(files: Seq<StoredFile>) -> Disk {
    Map::new(
        |name: Seq<char>| has_file(files, name),
        |name: Seq<char>| blocks_view(files[file_index(files, name)].blocks@),
    )
}

proof fn lemma_file_at(files: Seq<StoredFile>, bs: nat, i: int)
    requires
        files_wf(files, bs),
        0 <= i < files.len(),
    ensures
        files_view(files).contains_key(files[i].name@),
        files_view(files)[files[i].name@] == blocks_view(files[i].blocks@),
        file_index(files, files[i].name@) == i,
{
    let name = files[i].name@;
    assert(has_file(files, name));
    let j = file_index(files, name);
    assert(0 <= j < files.len() && files[j].name@ == name);
    if j < i {
        assert(files[j].name@ != files[i].name@);
    }
    if i < j {
        assert(files[i].name@ != files[j].name@);
    }
}

proof fn lemma_no_file(files: Seq<StoredFile>, name: Seq<char>)
    requires
        forall|i: int| 0 <= i < files.len() ==> #[trigger] files[i].name@ != name,
    ensures
        !files_view(files).contains_key(name),
{
}

/// One file changed or added at index `i`, the others as they were: the view is the
/// old one with that file's entry replaced.
proof fn lemma_files_changed(old_files: Seq<StoredFile>, new_files: Seq<StoredFile>, bs: nat, i: int)
    requires
        files_wf(old_files, bs),
        files_wf(new_files, bs),
        0 <= i < new_files.len(),
        old_files.len() == new_files.len() || (old_files.len() == i && new_files.len() == i + 1),
        forall|j: int| 0 <= j < old_files.len() ==> #[trigger] new_files[j].name@ == old_files[j].name@,
        forall|j: int|
            0 <= j < old_files.len() && j != i ==> #[trigger] new_files[j].blocks@
                == old_files[j].blocks@,
    ensures
        files_view(new_files) =~= files_view(old_files).insert(
            new_files[i].name@,
            blocks_view(new_files[i].blocks@),
        ),
{
    let name = new_files[i].name@;
    let target = files_view(old_files).insert(name, blocks_view(new_files[i].blocks@));
    lemma_file_at(new_files, bs, i);
    assert forall|k: Seq<char>| files_view(new_files).contains_key(k) <==> target.contains_key(k) by {
        if has_file(new_files, k) && k != name {
            let j = file_index(new_files, k);
            assert(j != i);
            assert(old_files[j].name@ == k);
        }
        if has_file(old_files, k) {
            let j = file_index(old_files, k);
            assert(new_files[j].name@ == k);
        }
    }
    assert forall|k: Seq<char>| files_view(new_files).contains_key(k) implies files_view(new_files)[k]
        == target[k] by {
        if k != name {
            let j = file_index(new_files, k);
            lemma_file_at(new_files, bs, j);
            assert(j != i);
            lemma_file_at(old_files, bs, j);
        }
    }
}

/// The block store: every file of the database as a run of blocks of one fixed size.
pub struct FileMgr {
    db_dir: String,
    block_size: usize,
    files: Vec<StoredFile>,
}

impl View for FileMgr {
    type V = Disk;

    closed spec fn view(&self) -> Disk {
        files_view(self.files@)
    }
}

fn zero_block(n: usize) -> (block: Vec<u8>)
    ensures
        block@ == zeros(n as nat),
{
    let mut block: Vec<u8> = Vec::new();
    let mut i: usize = 0;
    while i < n
        invariant
            i <= n,
            block@ == zeros(i as nat),
        decreases n - i,
    {
        block.push(0u8);
        i = i + 1;
        assert(block@ =~= zeros(i as nat));
    }
    block
}

impl FileMgr {
    /// The size in bytes of every block of the store.
    pub closed spec fn bs(&self) -> nat {
        self.block_size as nat
    }

    /// The name of the directory that the store stands for.
    pub closed spec fn dir(&self) -> Seq<char> {
        self.db_dir@
    }

    /// Whether the store is consistent: every block of every file has the block
    /// size. Every store that this library hands out is.
    pub closed spec fn wf(&self) -> bool {
        files_wf(self.files@, self.block_size as nat)
    }

    /// A block fits into memory.
    pub proof fn lemma_bs_fits(&self)
        ensures
            self.bs() <= usize::MAX,
    {
    }

    /// Every block of a consistent store has the block size.
    pub proof fn lemma_block_len(&self, name: Seq<char>, n: int)
        requires
            self.wf(),
            0 <= n < blocks_of(self@, name).len(),
        ensures
            blocks_of(self@, name)[n].len() == self.bs(),
    {
        let i = file_index(self.files@, name);
        lemma_file_at(self.files@, self.bs(), i);
        assert(self.files@[i].blocks@[n]@.len() == self.bs());
    }

    /// An empty store for the directory `db_dir`, with blocks of `block_size` bytes.
    pub fn new(db_dir: String, block_size: u64) -> (fm: Self)
        requires
            block_size <= usize::MAX,
        ensures
            fm.wf(),
            fm.bs() == block_size,
            fm.dir() == db_dir@,
            fm@ == Map::<Seq<char>, Seq<Seq<u8>>>::empty(),
    {
        let fm = FileMgr { db_dir, block_size: block_size as usize, files: Vec::new() };
        assert(fm@ =~= Map::<Seq<char>, Seq<Seq<u8>>>::empty());
        fm
    }

    fn find(&self, file_name: &String) -> (r: Option<usize>)
        requires
            self.wf(),
        ensures
            r is Some <==> self@.contains_key(file_name@),
            r matches Some(i) ==> i < self.files@.len() && self.files@[i as int].name@ == file_name@
                && self@[file_name@] == blocks_view(self.files@[i as int].blocks@),
    {
        let mut i: usize = 0;
        while i < self.files.len()
            invariant
                self.wf(),
                i <= self.files@.len(),
                forall|j: int| 0 <= j < i ==> #[trigger] self.files@[j].name@ != file_name@,
            decreases self.files@.len() - i,
        {
            if self.files[i].name == *file_name {
                proof {
                    lemma_file_at(self.files@, self.bs(), i as int);
                }
                return Some(i);
            }
            i = i + 1;
        }
        proof {
            lemma_no_file(self.files@, file_name@);
        }
        None
    }

    /// Makes block `n` of the file `file_name` exist and returns where the file is
    /// kept.
    fn touch(&mut self, file_name: &String, n: usize) -> (i: usize)
        requires
            old(self).wf(),
            n < usize::MAX,
        ensures
            final(self).wf(),
            final(self).bs() == old(self).bs(),
            final(self).dir() == old(self).dir(),
            final(self)@ == touched(old(self)@, file_name@, n as nat, old(self).bs()),
            i < final(self).files@.len(),
            final(self).files@[i as int].name@ == file_name@,
            blocks_view(final(self).files@[i as int].blocks@) == final(self)@[file_name@],
            n < final(self).files@[i as int].blocks@.len(),
    {
        let ghost old_files = self.files@;
        let ghost bs = self.bs();
        let i = match self.find(file_name) {
            Some(i) => i,
            None => {
                assert forall|j: int| 0 <= j < old_files.len() implies #[trigger] old_files[j].name@
                    != file_name@ by {
                    if old_files[j].name@ == file_name@ {
                        assert(has_file(old_files, file_name@));
                    }
                }
                self.files.push(StoredFile { name: file_name.clone(), blocks: Vec::new() });
                self.files.len() - 1
            },
        };
        let ghost mid_files = self.files@;
        let ghost base = blocks_of(old(self)@, file_name@);
        assert(blocks_view(mid_files[i as int].blocks@) =~= base);
        while self.files[i].blocks.len() <= n
            invariant
                self.block_size == old(self).block_size,
                self.db_dir == old(self).db_dir,
                bs == self.block_size,
                n < usize::MAX,
                i < self.files@.len(),
                self.files@.len() == mid_files.len(),
                files_wf(self.files@, bs),
                forall|j: int| 0 <= j < mid_files.len() ==> #[trigger] self.files@[j].name@ == mid_files[j].name@,
                forall|j: int|
                    0 <= j < mid_files.len() && j != i ==> #[trigger] self.files@[j].blocks@
                        == mid_files[j].blocks@,
                base.len() <= self.files@[i as int].blocks@.len(),
                self.files@[i as int].blocks@.len() > base.len() ==> self.files@[i as int].blocks@.len() <= n + 1,
                blocks_view(self.files@[i as int].blocks@) == base + Seq::new(
                    (self.files@[i as int].blocks@.len() - base.len()) as nat,
                    |k: int| zeros(bs),
                ),
            decreases n + 1 - self.files@[i as int].blocks@.len(),
        {
            let ghost before = self.files@;
            let block = zero_block(self.block_size);
            self.files[i].blocks.push(block);
            assert(self.files@.len() == before.len());
            assert(self.files@[i as int].name == before[i as int].name);
            assert(self.files@[i as int].blocks@ == before[i as int].blocks@.push(block));
            assert(forall|j: int| 0 <= j < before.len() && j != i ==> self.files@[j] == before[j]);
            let ghost want = base + Seq::new(
                (self.files@[i as int].blocks@.len() - base.len()) as nat,
                |k: int| zeros(bs),
            );
            assert forall|k: int| 0 <= k < want.len() implies blocks_view(
                self.files@[i as int].blocks@,
            )[k] == want[k] by {
                if k < before[i as int].blocks@.len() {
                    assert(blocks_view(before[i as int].blocks@)[k] == want[k]);
                }
            }
            assert(blocks_view(self.files@[i as int].blocks@) =~= base + Seq::new(
                (self.files@[i as int].blocks@.len() - base.len()) as nat,
                |k: int| zeros(bs),
            ));
        }
        proof {
            assert(blocks_view(self.files@[i as int].blocks@) =~= extended(base, n as nat, bs)) by {
                if n < base.len() {
                    assert(self.files@[i as int].blocks@.len() == base.len());
                }
            }
            lemma_files_changed(old_files, self.files@, bs, i as int);
            lemma_file_at(self.files@, bs, i as int);
        }
        i
    }

    /// Reads block `blk` into `page`. A file or a block that did not exist is made,
    /// filled with zeros, on the way.
    pub fn read(&mut self, blk: &BlockId, page: &mut Page)
        requires
            old(self).wf(),
            blk@.blk_num < usize::MAX,
        ensures
            final(self).wf(),
            final(self).bs() == old(self).bs(),
            final(self).dir() == old(self).dir(),
            final(self)@ == touched(old(self)@, blk@.file_name, blk@.blk_num, old(self).bs()),
            final(page)@ == final(self)@[blk@.file_name][blk@.blk_num as int],
            final(page).wf(),
    {
        let n = blk.blk_num() as usize;
        let i = self.touch(blk.file_name(), n);
        *page = Page::from_bytes(self.files[i].blocks[n].as_slice());
    }

    /// Reads block `blk`, which exists, into `page`.
    pub fn read_existing(&self, blk: &BlockId, page: &mut Page)
        requires
            self.wf(),
            blk@.blk_num < blocks_of(self@, blk@.file_name).len(),
        ensures
            final(page)@ == self@[blk@.file_name][blk@.blk_num as int],
            final(page).wf(),
    {
        match self.find(blk.file_name()) {
            Some(i) => {
                let count = self.files[i].blocks.len();
                assert(blk@.blk_num < count);
                let n = blk.blk_num() as usize;
                assert(blocks_view(self.files@[i as int].blocks@)[n as int]
                    == self.files@[i as int].blocks@[n as int]@);
                *page = Page::from_bytes(self.files[i].blocks[n].as_slice());
            },
            None => {
                assert(false);
            },
        }
    }

    /// Writes `page` to block `blk`. A file that did not exist is made, and so are
    /// the blocks before `blk`, filled with zeros.
    pub fn write(&mut self, blk: &BlockId, page: &Page)
        requires
            old(self).wf(),
            blk@.blk_num < usize::MAX,
            page@.len() == old(self).bs(),
        ensures
            final(self).wf(),
            final(self).bs() == old(self).bs(),
            final(self).dir() == old(self).dir(),
            final(self)@ == written(
                old(self)@,
                blk@.file_name,
                blk@.blk_num,
                old(self).bs(),
                page@,
            ),
    {
        let ghost bs = self.bs();
        let n = blk.blk_num() as usize;
        let i = self.touch(blk.file_name(), n);
        let ghost mid_files = self.files@;
        let ghost mid = self@;
        let bytes = page.to_bytes();
        self.files[i].blocks[n] = bytes;
        proof {
            assert(blocks_view(self.files@[i as int].blocks@) =~= blocks_view(
                mid_files[i as int].blocks@,
            ).update(n as int, page@));
            lemma_files_changed(mid_files, self.files@, bs, i as int);
            assert(self@ =~= written(old(self)@, blk@.file_name, blk@.blk_num, bs, page@));
        }
    }

    /// Adds one zero block to the end of the file `file_name` and returns its
    /// address.
    pub fn append(&mut self, file_name: &String) -> (blk: BlockId)
        requires
            old(self).wf(),
            blocks_of(old(self)@, file_name@).len() < usize::MAX,
        ensures
            final(self).wf(),
            final(self).bs() == old(self).bs(),
            final(self).dir() == old(self).dir(),
            final(self)@ == grown(old(self)@, file_name@, old(self).bs()),
            blk@.file_name == file_name@,
            blk@.blk_num == blocks_of(old(self)@, file_name@).len(),
    {
        let n = self.length(file_name);
        let i = self.touch(file_name, n as usize);
        proof {
            assert(extended(blocks_of(old(self)@, file_name@), n as nat, self.bs()) =~= blocks_of(
                old(self)@,
                file_name@,
            ).push(zeros(self.bs())));
        }
        BlockId::new(file_name.clone(), n)
    }

    /// The number of blocks of the file `file_name`; 0 where it does not exist.
    pub fn length(&self, file_name: &String) -> (n: u64)
        requires
            self.wf(),
        ensures
            n == blocks_of(self@, file_name@).len(),
    {
        match self.find(file_name) {
            Some(i) => self.files[i].blocks.len() as u64,
            None => 0,
        }
    }

    /// Whether the store has no file `file_name` yet.
    pub fn is_new(&self, file_name: &String) -> (fresh: bool)
        requires
            self.wf(),
        ensures
            fresh == !self@.contains_key(file_name@),
    {
        self.find(file_name).is_none()
    }

    /// The size of a block.
    pub fn block_size(&self) -> (n: u64)
        ensures
            n == self.bs(),
            n <= usize::MAX,
    {
        self.block_size as u64
    }

    /// The name of the directory that the store stands for.
    pub fn db_dir(&self) -> (dir: &String)
        ensures
            dir@ == self.dir(),
    {
        &self.db_dir
    }

    /// The names of the files of the store.
    pub fn file_names(&self) -> (names: Vec<String>)
        requires
            self.wf(),
        ensures
            forall|name: Seq<char>|
                self@.contains_key(name) <==> exists|i: int|
                    0 <= i < names@.len() && #[trigger] names@[i]@ == name,
            forall|i: int, j: int|
                0 <= i < j < names@.len() ==> #[trigger] names@[i]@ != #[trigger] names@[j]@,
    {
        let mut names: Vec<String> = Vec::new();
        let mut i: usize = 0;
        while i < self.files.len()
            invariant
                i <= self.files@.len(),
                names@.len() == i,
                forall|j: int| 0 <= j < i ==> #[trigger] names@[j]@ == self.files@[j].name@,
            decreases self.files@.len() - i,
        {
            names.push(self.files[i].name.clone());
            i = i + 1;
        }
        proof {
            assert forall|name: Seq<char>| self@.contains_key(name) implies exists|i: int|
                0 <= i < names@.len() && #[trigger] names@[i]@ == name by {
                let k = file_index(self.files@, name);
                assert(names@[k]@ == name);
            }
            assert forall|name: Seq<char>|
                (exists|i: int| 0 <= i < names@.len() && #[trigger] names@[i]@ == name)
                implies self@.contains_key(name) by {
                let k = choose|i: int| 0 <= i < names@.len() && #[trigger] names@[i]@ == name;
                assert(self.files@[k].name@ == name);
            }
        }
        names
    }
}

} // verus!
