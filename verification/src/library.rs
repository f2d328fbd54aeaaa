//! The photo library on disk: which files a scan picks up, where culled files
//! go, and where a file's thumbnail for hashing lies.
use vstd::prelude::*;
use vstd::string::StringSliceAdditionalSpecFns;

use crate::jpeg::{largest_jpeg, lemma_largest_jpeg_is_jpeg, scan_for_largest_jpeg};
use crate::text::{eq_ignore_ascii_case, matches_lower};

verus! {

/// "Selected_to_Edit": the folder kept files move to.
pub open spec fn selected_dir_name() -> Seq<u8> {
    seq![
        0x53u8, 0x65, 0x6c, 0x65, 0x63, 0x74, 0x65, 0x64, 0x5f, 0x74, 0x6f, 0x5f, 0x45, 0x64,
        0x69, 0x74,
    ]
}

/// "Starred": the folder starred files move to.
pub open spec fn starred_dir_name() -> Seq<u8> {
    seq![0x53u8, 0x74, 0x61, 0x72, 0x72, 0x65, 0x64]
}

/// ".trash".
pub open spec fn trash_dir_name() -> Seq<u8> {
    seq![0x2eu8, 0x74, 0x72, 0x61, 0x73, 0x68]
}

/// Whether a directory entry named `name` (as UTF-8 bytes) is scanned: output
/// directories are skipped so that culled files are not scanned again, and
/// hidden files (whose name starts with '.') are skipped.
pub open spec fn entry_scanned(name: Seq<u8>, is_dir: bool) -> bool {
    if is_dir {
        name != selected_dir_name() && name != starred_dir_name() && name != trash_dir_name()
    } else {
        !(name.len() > 0 && name[0] == 0x2e)
    }
}

fn bytes_eq(a: &[u8], b: &[u8]) -> (r: bool)
    ensures
        r == (a@ == b@),
{
    if a.len() != b.len() {
        return false;
    }
    let mut i: usize = 0;
    while i < a.len()
        invariant
            a.len() == b.len(),
            0 <= i <= a.len(),
            forall|j: int| 0 <= j < i ==> a@[j] == b@[j],
        decreases a.len() - i,
    {
        if a[i] != b[i] {
            return false;
        }
        i += 1;
    }
    assert(a@ =~= b@);
    true
}

/// Whether the directory walk descends into, or keeps, the entry named `name`.
pub fn keep_entry(name: &str, is_dir: bool) -> (r: bool)
    ensures
        r == entry_scanned(name.spec_bytes(), is_dir),
{
    let n = name.as_bytes();
    if is_dir {
        let selected: [u8; 16] = [
            0x53,
            0x65,
            0x6c,
            0x65,
            0x63,
            0x74,
            0x65,
            0x64,
            0x5f,
            0x74,
            0x6f,
            0x5f,
            0x45,
            0x64,
            0x69,
            0x74,
        ];
        let starred: [u8; 7] = [0x53, 0x74, 0x61, 0x72, 0x72, 0x65, 0x64];
        let trash: [u8; 6] = [0x2e, 0x74, 0x72, 0x61, 0x73, 0x68];
        assert(selected@ =~= selected_dir_name());
        assert(starred@ =~= starred_dir_name());
        assert(trash@ =~= trash_dir_name());
        !bytes_eq(n, selected.as_slice()) && !bytes_eq(n, starred.as_slice()) && !bytes_eq(
            n,
            trash.as_slice(),
        )
    } else {
        !(n.len() > 0 && n[0] == 0x2e)
    }
}

/// The file extensions scanned: arw, nef, cr2, cr3, raf, dng, jpg, jpeg, png.
pub open spec fn supported_extensions() -> Seq<Seq<u8>> {
    seq![
        seq![0x61u8, 0x72, 0x77],
        seq![0x6eu8, 0x65, 0x66],
        seq![0x63u8, 0x72, 0x32],
        seq![0x63u8, 0x72, 0x33],
        seq![0x72u8, 0x61, 0x66],
        seq![0x64u8, 0x6e, 0x67],
        seq![0x6au8, 0x70, 0x67],
        seq![0x6au8, 0x70, 0x65, 0x67],
        seq![0x70u8, 0x6e, 0x67],
    ]
}

/// Whether files with extension `ext` (any case) are scanned.
pub fn is_supported_extension(ext: &str) -> (r: bool)
    ensures
        r == exists|i: int|
            0 <= i < supported_extensions().len() && eq_ignore_ascii_case(
                ext.spec_bytes(),
                #[trigger] supported_extensions()[i],
            ),
{
    let e = ext.as_bytes();
    let arw: [u8; 3] = [0x61, 0x72, 0x77];
    let nef: [u8; 3] = [0x6e, 0x65, 0x66];
    let cr2: [u8; 3] = [0x63, 0x72, 0x32];
    let cr3: [u8; 3] = [0x63, 0x72, 0x33];
    let raf: [u8; 3] = [0x72, 0x61, 0x66];
    let dng: [u8; 3] = [0x64, 0x6e, 0x67];
    let jpg: [u8; 3] = [0x6a, 0x70, 0x67];
    let jpeg: [u8; 4] = [0x6a, 0x70, 0x65, 0x67];
    let png: [u8; 3] = [0x70, 0x6e, 0x67];
    let ghost exts = supported_extensions();
    assert(arw@ =~= exts[0]);
    assert(nef@ =~= exts[1]);
    assert(cr2@ =~= exts[2]);
    assert(cr3@ =~= exts[3]);
    assert(raf@ =~= exts[4]);
    assert(dng@ =~= exts[5]);
    assert(jpg@ =~= exts[6]);
    assert(jpeg@ =~= exts[7]);
    assert(png@ =~= exts[8]);
    let r = matches_lower(e, arw.as_slice()) || matches_lower(e, nef.as_slice()) || matches_lower(
        e,
        cr2.as_slice(),
    ) || matches_lower(e, cr3.as_slice()) || matches_lower(e, raf.as_slice()) || matches_lower(
        e,
        dng.as_slice(),
    ) || matches_lower(e, jpg.as_slice()) || matches_lower(e, jpeg.as_slice()) || matches_lower(
        e,
        png.as_slice(),
    );
    proof {
        if !r {
            assert forall|i: int| 0 <= i < exts.len() implies !eq_ignore_ascii_case(
                e@,
                #[trigger] exts[i],
            ) by {
                if i == 0 {
                } else if i == 1 {
                } else if i == 2 {
                } else if i == 3 {
                } else if i == 4 {
                } else if i == 5 {
                } else if i == 6 {
                } else if i == 7 {
                } else {
                }
            }
        }
    }
    r
}

/// Whether a command-line argument is an option rather than a path.
pub fn is_flag_argument(arg: &str) -> (r: bool)
    ensures
        r == (arg.spec_bytes().len() > 0 && arg.spec_bytes()[0] == 0x2d),
{
    let b = arg.as_bytes();
    b.len() > 0 && b[0] == 0x2d
}

/// How much of a file is searched for the thumbnail that is hashed (2 MiB).
pub const HASH_SCAN_LIMIT: usize = 2 * 1024 * 1024;

/// Where the JPEG hashed for a file lies: the largest JPEG within its first 2 MiB.
pub open spec fn hash_source(d: Seq<u8>) -> Option<(int, int)> {
    let prefix = if d.len() < HASH_SCAN_LIMIT {
        d
    } else {
        d.take(HASH_SCAN_LIMIT as int)
    };
    match largest_jpeg(prefix) {
        Some((o, l)) => Some((o as int, o + l)),
        None => None,
    }
}

/// The byte range of the JPEG to hash for the file `data`.
pub fn phash_source_range(data: &[u8]) -> (r: Option<(usize, usize)>)
    ensures
        match r {
            Some((s, e)) => hash_source(data@) == Some((s as int, e as int)),
            None => hash_source(data@) is None,
        },
{
    let scan_end = if data.len() < HASH_SCAN_LIMIT {
        data.len()
    } else {
        HASH_SCAN_LIMIT
    };
    let prefix = &data[0..scan_end];
    assert(prefix@ =~= (if data@.len() < HASH_SCAN_LIMIT {
        data@
    } else {
        data@.take(HASH_SCAN_LIMIT as int)
    }));
    let found = scan_for_largest_jpeg(prefix);
    proof {
        lemma_largest_jpeg_is_jpeg(prefix@);
    }
    match found {
        Some((offset, length)) => Some((offset as usize, offset as usize + length as usize)),
        None => None,
    }
}

/// Where a culled file goes.
#[derive(Debug, Clone, Copy, PartialEq, Eq)]
pub enum CullDestination {
    /// The `Selected_to_Edit` folder beside the file.
    SelectedToEdit,
    /// The `Starred` folder beside the file.
    Starred,
    /// The system trash.
    Trash,
}

/// The moves for the files of `list` sent to `dest`, in order; with `skip_starred`,
/// files that are also starred are left out.
pub open spec fn moves(list: Seq<Seq<char>>, star: Seq<Seq<char>>, dest: CullDestination, skip_starred: bool) -> Seq<
    (Seq<char>, CullDestination),
>
    decreases list.len(),
{
    if list.len() == 0 {
        seq![]
    } else {
        let prev = moves(list.drop_last(), star, dest, skip_starred);
        if skip_starred && star.contains(list.last()) {
            prev
        } else {
            prev.push((list.last(), dest))
        }
    }
}

/// The culling plan: kept files to `Selected_to_Edit`, then starred files to
/// `Starred`, then trashed files to the trash; a starred file is neither kept
/// nor trashed.
pub open spec fn culling_plan(keep: Seq<Seq<char>>, trash: Seq<Seq<char>>, star: Seq<Seq<char>>) -> Seq<
    (Seq<char>, CullDestination),
> {
    moves(keep, star, CullDestination::SelectedToEdit, true) + moves(
        star,
        star,
        CullDestination::Starred,
        false,
    ) + moves(trash, star, CullDestination::Trash, true)
}

/// The texts of a list of strings.
pub open spec fn texts(v: Seq<String>) -> Seq<Seq<char>> {
    Seq::new(v.len(), |i: int| v[i]@)
}

/// The plan as texts and destinations.
pub open spec fn plan_view(v: Seq<(String, CullDestination)>) -> Seq<(Seq<char>, CullDestination)> {
    Seq::new(v.len(), |i: int| (v[i].0@, v[i].1))
}

fn contains_string(list: &Vec<String>, s: &String) -> (r: bool)
    ensures
        r == texts(list@).contains(s@),
{
    let mut i: usize = 0;
    while i < list.len()
        invariant
            0 <= i <= list.len(),
            forall|j: int| 0 <= j < i ==> list@[j]@ != s@,
        decreases list.len() - i,
    {
        if list[i] == *s {
            assert(texts(list@)[i as int] == s@);
            return true;
        }
        i += 1;
    }
    proof {
        if texts(list@).contains(s@) {
            let k = choose|k: int| 0 <= k < texts(list@).len() && texts(list@)[k] == s@;
            assert(list@[k]@ == s@);
        }
    }
    false
}

fn push_moves(
    plan: &mut Vec<(String, CullDestination)>,
    list: &Vec<String>,
    star: &Vec<String>,
    dest: CullDestination,
    skip_starred: bool,
)
    ensures
        plan_view(final(plan)@) == plan_view(old(plan)@) + moves(
            texts(list@),
            texts(star@),
            dest,
            skip_starred,
        ),
{
    let ghost p0 = plan_view(plan@);
    let mut i: usize = 0;
    while i < list.len()
        invariant
            0 <= i <= list.len(),
            plan_view(plan@) == p0 + moves(texts(list@).take(i as int), texts(star@), dest, skip_starred),
        decreases list.len() - i,
    {
        let ghost before = plan@;
        assert(texts(list@).take(i + 1).drop_last() =~= texts(list@).take(i as int));
        if !(skip_starred && contains_string(star, &list[i])) {
            plan.push((list[i].clone(), dest));
            assert(plan_view(plan@) =~= plan_view(before).push((list@[i as int]@, dest)));
        }
        i += 1;
    }
    assert(texts(list@).take(list.len() as int) =~= texts(list@));
}

/// The moves that apply the culling decisions, in order: kept files (unless
/// starred) to `Selected_to_Edit`, starred files to `Starred`, trashed files
/// (unless starred) to the trash.
pub fn plan_culling(keep_list: &Vec<String>, trash_list: &Vec<String>, star_list: &Vec<String>) -> (r:
    Vec<(String, CullDestination)>)
    ensures
        plan_view(r@) == culling_plan(texts(keep_list@), texts(trash_list@), texts(star_list@)),
{
    let mut plan: Vec<(String, CullDestination)> = Vec::new();
    assert(plan_view(plan@) =~= Seq::<(Seq<char>, CullDestination)>::empty());
    push_moves(&mut plan, keep_list, star_list, CullDestination::SelectedToEdit, true);
    push_moves(&mut plan, star_list, star_list, CullDestination::Starred, false);
    push_moves(&mut plan, trash_list, star_list, CullDestination::Trash, true);
    assert(plan_view(plan@) =~= culling_plan(
        texts(keep_list@),
        texts(trash_list@),
        texts(star_list@),
    ));
    plan
}

/// Star takes precedence: in the culling plan, a starred file is only ever
/// moved to `Starred`, and every starred file is moved there.
pub proof fn lemma_star_takes_precedence(
    keep: Seq<Seq<char>>,
    trash: Seq<Seq<char>>,
    star: Seq<Seq<char>>,
)
    ensures
        forall|i: int|
            0 <= i < culling_plan(keep, trash, star).len() && star.contains(
                (#[trigger] culling_plan(keep, trash, star)[i]).0,
            ) ==> culling_plan(keep, trash, star)[i].1 == CullDestination::Starred,
        forall|s: Seq<char>|
            #[trigger] star.contains(s) ==> culling_plan(keep, trash, star).contains(
                (s, CullDestination::Starred),
            ),
{
    lemma_moves_skip(keep, star, CullDestination::SelectedToEdit);
    lemma_moves_skip(trash, star, CullDestination::Trash);
    lemma_moves_dest(keep, star, CullDestination::SelectedToEdit, true);
    lemma_moves_dest(star, star, CullDestination::Starred, false);
    lemma_moves_dest(trash, star, CullDestination::Trash, true);
    lemma_moves_all(star, star, CullDestination::Starred);
    let a = moves(keep, star, CullDestination::SelectedToEdit, true);
    let b = moves(star, star, CullDestination::Starred, false);
    let c = moves(trash, star, CullDestination::Trash, true);
    let p = culling_plan(keep, trash, star);
    assert forall|i: int| 0 <= i < p.len() && star.contains((#[trigger] p[i]).0) implies p[i].1
        == CullDestination::Starred by {
        if i < a.len() {
            assert(p[i] == a[i]);
        } else if i < a.len() + b.len() {
            assert(p[i] == b[i - a.len()]);
        } else {
            assert(p[i] == c[i - a.len() - b.len()]);
        }
    }
    assert forall|s: Seq<char>| #[trigger] star.contains(s) implies p.contains(
        (s, CullDestination::Starred),
    ) by {
        let k = choose|k: int| 0 <= k < star.len() && star[k] == s;
        assert(p[a.len() + k] == b[k]);
    }
}

/// The culling plan carries out every decision and nothing else: each kept
/// file that is not starred goes to `Selected_to_Edit`, each trashed file that
/// is not starred goes to the trash, and every move in the plan is of a file
/// kept, starred or trashed, to the destination of that decision.
pub proof fn lemma_plan_carries_out_decisions(
    keep: Seq<Seq<char>>,
    trash: Seq<Seq<char>>,
    star: Seq<Seq<char>>,
)
    ensures
        forall|k: int|
            0 <= k < keep.len() && !star.contains(#[trigger] keep[k]) ==> culling_plan(
                keep,
                trash,
                star,
            ).contains((keep[k], CullDestination::SelectedToEdit)),
        forall|k: int|
            0 <= k < trash.len() && !star.contains(#[trigger] trash[k]) ==> culling_plan(
                keep,
                trash,
                star,
            ).contains((trash[k], CullDestination::Trash)),
        forall|i: int|
            0 <= i < culling_plan(keep, trash, star).len() ==> {
                let mv = #[trigger] culling_plan(keep, trash, star)[i];
                &&& mv.1 == CullDestination::SelectedToEdit ==> keep.contains(mv.0)
                &&& mv.1 == CullDestination::Starred ==> star.contains(mv.0)
                &&& mv.1 == CullDestination::Trash ==> trash.contains(mv.0)
            },
{
    let a = moves(keep, star, CullDestination::SelectedToEdit, true);
    let b = moves(star, star, CullDestination::Starred, false);
    let c = moves(trash, star, CullDestination::Trash, true);
    let p = culling_plan(keep, trash, star);
    lemma_moves_unskipped(keep, star, CullDestination::SelectedToEdit);
    lemma_moves_unskipped(trash, star, CullDestination::Trash);
    lemma_moves_from(keep, star, CullDestination::SelectedToEdit, true);
    lemma_moves_from(star, star, CullDestination::Starred, false);
    lemma_moves_from(trash, star, CullDestination::Trash, true);
    lemma_moves_dest(keep, star, CullDestination::SelectedToEdit, true);
    lemma_moves_dest(star, star, CullDestination::Starred, false);
    lemma_moves_dest(trash, star, CullDestination::Trash, true);
    assert forall|k: int| 0 <= k < keep.len() && !star.contains(#[trigger] keep[k]) implies p.contains(
        (keep[k], CullDestination::SelectedToEdit),
    ) by {
        let x = choose|x: int| 0 <= x < a.len() && a[x] == (keep[k], CullDestination::SelectedToEdit);
        assert(p[x] == a[x]);
    }
    assert forall|k: int| 0 <= k < trash.len() && !star.contains(#[trigger] trash[k]) implies p.contains(
        (trash[k], CullDestination::Trash),
    ) by {
        let x = choose|x: int| 0 <= x < c.len() && c[x] == (trash[k], CullDestination::Trash);
        assert(p[a.len() + b.len() + x] == c[x]);
    }
    assert forall|i: int| 0 <= i < p.len() implies {
        let mv = #[trigger] p[i];
        &&& mv.1 == CullDestination::SelectedToEdit ==> keep.contains(mv.0)
        &&& mv.1 == CullDestination::Starred ==> star.contains(mv.0)
        &&& mv.1 == CullDestination::Trash ==> trash.contains(mv.0)
    } by {
        if i < a.len() {
            assert(p[i] == a[i]);
        } else if i < a.len() + b.len() {
            assert(p[i] == b[i - a.len()]);
        } else {
            assert(p[i] == c[i - a.len() - b.len()]);
        }
    }
}

/// Every file of `list` that is not starred is moved to `dest`.
proof fn lemma_moves_unskipped(list: Seq<Seq<char>>, star: Seq<Seq<char>>, dest: CullDestination)
    ensures
        forall|k: int|
            0 <= k < list.len() && !star.contains(#[trigger] list[k]) ==> moves(
                list,
                star,
                dest,
                true,
            ).contains((list[k], dest)),
    decreases list.len(),
{
    if list.len() > 0 {
        let prev_list = list.drop_last();
        lemma_moves_unskipped(prev_list, star, dest);
        let prev = moves(prev_list, star, dest, true);
        let cur = moves(list, star, dest, true);
        assert forall|k: int| 0 <= k < list.len() && !star.contains(#[trigger] list[k]) implies cur.contains(
            (list[k], dest),
        ) by {
            if k < prev_list.len() {
                assert(prev_list[k] == list[k]);
                let x = choose|x: int| 0 <= x < prev.len() && prev[x] == (list[k], dest);
                assert(cur[x] == prev[x]);
            } else {
                assert(cur[prev.len() as int] == (list[k], dest));
            }
        }
    }
}

/// Every move of `moves(list, ..)` is of a file of `list`.
proof fn lemma_moves_from(list: Seq<Seq<char>>, star: Seq<Seq<char>>, dest: CullDestination, skip: bool)
    ensures
        forall|i: int|
            0 <= i < moves(list, star, dest, skip).len() ==> list.contains(
                (#[trigger] moves(list, star, dest, skip)[i]).0,
            ),
    decreases list.len(),
{
    if list.len() > 0 {
        let prev_list = list.drop_last();
        lemma_moves_from(prev_list, star, dest, skip);
        let prev = moves(prev_list, star, dest, skip);
        let cur = moves(list, star, dest, skip);
        assert forall|i: int| 0 <= i < cur.len() implies list.contains((#[trigger] cur[i]).0) by {
            if i < prev.len() {
                assert(cur[i] == prev[i]);
                let x = choose|x: int| 0 <= x < prev_list.len() && prev_list[x] == prev[i].0;
                assert(list[x] == prev_list[x]);
            } else {
                assert(cur[i].0 == list[list.len() - 1]);
            }
        }
    }
}

/// Moving every file of `list` (none skipped) moves each to `dest`, in order.
proof fn lemma_moves_all(list: Seq<Seq<char>>, star: Seq<Seq<char>>, dest: CullDestination)
    ensures
        moves(list, star, dest, false).len() == list.len(),
        forall|k: int|
            0 <= k < list.len() ==> #[trigger] moves(list, star, dest, false)[k] == (list[k], dest),
    decreases list.len(),
{
    if list.len() > 0 {
        lemma_moves_all(list.drop_last(), star, dest);
        let prev = moves(list.drop_last(), star, dest, false);
        let cur = moves(list, star, dest, false);
        assert forall|k: int| 0 <= k < list.len() implies #[trigger] cur[k] == (list[k], dest) by {
            if k < prev.len() {
                assert(cur[k] == prev[k]);
                assert(list.drop_last()[k] == list[k]);
            }
        }
    }
}

proof fn lemma_moves_skip(list: Seq<Seq<char>>, star: Seq<Seq<char>>, dest: CullDestination)
    ensures
        forall|k: int|
            0 <= k < moves(list, star, dest, true).len() ==> !star.contains(
                #[trigger] moves(list, star, dest, true)[k].0,
            ),
    decreases list.len(),
{
    if list.len() > 0 {
        lemma_moves_skip(list.drop_last(), star, dest);
        let prev = moves(list.drop_last(), star, dest, true);
        let cur = moves(list, star, dest, true);
        assert forall|k: int| 0 <= k < cur.len() implies !star.contains(#[trigger] cur[k].0) by {
            if k < prev.len() {
                assert(cur[k] == prev[k]);
            }
        }
    }
}

proof fn lemma_moves_dest(
    list: Seq<Seq<char>>,
    star: Seq<Seq<char>>,
    dest: CullDestination,
    skip: bool,
)
    ensures
        forall|k: int|
            0 <= k < moves(list, star, dest, skip).len() ==> (#[trigger] moves(
                list,
                star,
                dest,
                skip,
            )[k]).1 == dest,
    decreases list.len(),
{
    if list.len() > 0 {
        lemma_moves_dest(list.drop_last(), star, dest, skip);
        let prev = moves(list.drop_last(), star, dest, skip);
        let cur = moves(list, star, dest, skip);
        assert forall|k: int| 0 <= k < cur.len() implies (#[trigger] cur[k]).1 == dest by {
            if k < prev.len() {
                assert(cur[k] == prev[k]);
            }
        }
    }
}

} // verus!
