//! Building a catalog from the listing of a layer directory.
//!
//! The listing holds one entry per subdirectory of the root, and for each
//! the regular files found in it with their contents. A subdirectory whose
//! name is expected becomes a group, and each of its files an option named
//! after the file, extension stripped, with the default weight.

use vstd::prelude::*;
use crate::codec::{decode, decodes_to, readable};
use crate::generator::catalog_wf;
use crate::layer::{cumulative, weights_of, LayerGroup, LayerOption};
use crate::ordering::{
    all_among,
    distinct,
    misordered,
    repeats,
    find_name,
    first_absent,
    names_of,
    order_groups,
    texts,
    OrderingError,
};

verus! {

/// A regular file of a layer directory.
#[derive(Clone, Debug, PartialEq, Eq)]
pub struct LayerFile {
    /// The file's name, without any directory.
    pub file_name: String,
    /// The file's contents.
    pub bytes: Vec<u8>,
}

/// A subdirectory of the root, with the regular files in it.
#[derive(Clone, Debug, PartialEq, Eq)]
pub struct GroupDir {
    /// The directory's name, without the root.
    pub name: String,
    pub files: Vec<LayerFile>,
}

/// Why a listing gives no catalog.
#[derive(Clone, Copy, Debug, PartialEq, Eq, Structural)]
pub enum CatalogError {
    /// The root directory does not exist or cannot be read.
    RootUnreadable,
    /// The expected name at `position` has no directory.
    MissingGroup { position: usize },
    /// The directory at index `directory` of the listing holds no file.
    EmptyGroup { directory: usize },
    /// The file at index `file` of that directory is no image.
    Undecodable { directory: usize, file: usize },
}

/// Why a directory gives no group.
#[derive(Clone, Copy, Debug, PartialEq, Eq, Structural)]
pub enum GroupFault {
    /// The directory holds no file.
    Empty,
    /// The file at index `file` is no image.
    Undecodable { file: usize },
}

/// Why loading and ordering a catalog failed.
#[derive(Clone, Copy, Debug, PartialEq, Eq, Structural)]
pub enum LoadError {
    Catalog(CatalogError),
    Order(OrderingError),
}

/// Where a file name is cut to strip its extension, looking at its first
/// `n` characters only: at the last `.` that is not the first character,
/// or at the end if there is none.
pub open spec fn cut(name: Seq<char>, n: int) -> int
    decreases n,
{
    if n <= 1 {
        name.len() as int
    } else if name[n - 1] == '.' {
        n - 1
    } else {
        cut(name, n - 1)
    }
}

/// A file name with its extension stripped: what precedes the last `.`,
/// and the whole name where it has no `.` or only a leading one.
pub open spec fn stem(name: Seq<char>) -> Seq<char> {
    name.subrange(0, cut(name, name.len() as int))
}

/// A name with a `.` after its first character is cut at the last one; any
/// other name is kept whole.
pub proof fn lemma_cut_at_last_dot(name: Seq<char>, n: int)
    requires
        0 <= n <= name.len(),
    ensures
        (forall|i: int| 0 < i < n ==> name[i] != '.') ==> cut(name, n) == name.len(),
        forall|i: int|
            0 < i < n && name[i] == '.' && (forall|k: int| i < k < n ==> name[k] != '.') ==> cut(
                name,
                n,
            ) == i,
        cut(name, n) == name.len() || 0 < cut(name, n) < n,
    decreases n,
{
    if n > 1 {
        lemma_cut_at_last_dot(name, n - 1);
        if name[n - 1] != '.' {
            assert forall|i: int|
                0 < i < n && name[i] == '.' && (forall|k: int|
                    i < k < n ==> name[k] != '.') implies cut(name, n) == i by {
                assert(i < n - 1);
                assert(forall|k: int| i < k < n - 1 ==> name[k] != '.');
            }
        }
    }
}

/// The trait name of a layer file: its name with the extension stripped.
pub fn trait_name(file_name: &String) -> (name: String)
    ensures
        name@ == stem(file_name@),
{
    let text = file_name.as_str();
    let len: usize = text.unicode_len();
    let mut n: usize = len;
    while n > 1
        invariant
            n <= len,
            len == text@.len(),
            text@ == file_name@,
            cut(text@, len as int) == cut(text@, n as int),
        decreases n,
    {
        if text.get_char(n - 1) == '.' {
            return text.substring_char(0, n - 1).to_owned();
        }
        n = n - 1;
    }
    assert(text@.subrange(0, len as int) =~= text@);
    text.to_owned()
}

/// `option` is what `file` gives: named after the file, with the default
/// weight and the image that the file decodes to.
pub open spec fn option_from(file: LayerFile, option: LayerOption) -> bool {
    &&& option.name@ == stem(file.file_name@)
    &&& option.weight == 1
    &&& decodes_to(file.bytes@, option.image)
}

/// `i` is the first file that is no image.
pub open spec fn first_unreadable(files: Seq<LayerFile>, i: int) -> bool {
    &&& 0 <= i < files.len()
    &&& !readable(files[i].bytes@)
    &&& forall|k: int| 0 <= k < i ==> readable((#[trigger] files[k]).bytes@)
}

/// The directory gives a group: it holds at least one file, and all its
/// files are images.
pub open spec fn loads(dir: GroupDir) -> bool {
    &&& dir.files@.len() > 0
    &&& forall|k: int| 0 <= k < dir.files@.len() ==> readable((#[trigger] dir.files@[k]).bytes@)
}

/// `group` is what `dir` gives: a group of rank 0 named after the
/// directory, with one option per file, in the order of the files.
pub open spec fn group_from(dir: GroupDir, group: LayerGroup) -> bool {
    &&& group.wf()
    &&& group.spec_name() == dir.name@
    &&& group.spec_rank() == 0
    &&& group.spec_options().len() == dir.files@.len()
    &&& forall|k: int|
        0 <= k < dir.files@.len() ==> option_from(dir.files@[k], #[trigger] group.spec_options()[k])
}

/// The names of the directories of a listing, in order.
pub open spec fn dir_names(dirs: Seq<GroupDir>) -> Seq<Seq<char>> {
    Seq::new(dirs.len(), |i: int| dirs[i].name@)
}

/// Directory `d` has an expected name.
pub open spec fn wanted(dirs: Seq<GroupDir>, expected: Seq<Seq<char>>, d: int) -> bool {
    expected.contains(dirs[d].name@)
}

/// The indices of the directories with an expected name among the first
/// `n` of the listing, in order.
pub open spec fn wanted_dirs(dirs: Seq<GroupDir>, expected: Seq<Seq<char>>, n: int) -> Seq<int>
    decreases n,
{
    if n <= 0 {
        Seq::empty()
    } else if wanted(dirs, expected, n - 1) {
        wanted_dirs(dirs, expected, n - 1).push(n - 1)
    } else {
        wanted_dirs(dirs, expected, n - 1)
    }
}

/// `groups` are what the wanted directories among the first `n` give, in
/// the order of the listing.
pub open spec fn groups_from(
    dirs: Seq<GroupDir>,
    expected: Seq<Seq<char>>,
    n: int,
    groups: Seq<LayerGroup>,
) -> bool {
    &&& groups.len() == wanted_dirs(dirs, expected, n).len()
    &&& forall|k: int|
        0 <= k < groups.len() ==> group_from(
            dirs[wanted_dirs(dirs, expected, n)[k]],
            #[trigger] groups[k],
        )
}

/// Every wanted directory before `d` gives a group.
pub open spec fn loads_before(dirs: Seq<GroupDir>, expected: Seq<Seq<char>>, d: int) -> bool {
    forall|m: int| 0 <= m < d && wanted(dirs, expected, m) ==> loads(#[trigger] dirs[m])
}

/// The listing gives a catalog: every expected name has a directory, and
/// every directory with an expected name gives a group.
pub open spec fn loadable(dirs: Seq<GroupDir>, expected: Seq<Seq<char>>) -> bool {
    all_among(expected, dir_names(dirs)) && loads_before(dirs, expected, dirs.len() as int)
}

/// The names of the directories with an expected name, in the order of the
/// listing.
pub open spec fn wanted_names(dirs: Seq<GroupDir>, expected: Seq<Seq<char>>) -> Seq<Seq<char>> {
    Seq::new(
        wanted_dirs(dirs, expected, dirs.len() as int).len(),
        |k: int| dirs[wanted_dirs(dirs, expected, dirs.len() as int)[k]].name@,
    )
}

/// `fault` names the first fault of the listing: an expected name without
/// a directory, else the first directory with an expected name that holds
/// no file or a file that is no image.
pub open spec fn faulted(dirs: Seq<GroupDir>, expected: Seq<Seq<char>>, fault: CatalogError) -> bool {
    match fault {
        CatalogError::RootUnreadable => false,
        CatalogError::MissingGroup { position } => first_absent(
            expected,
            dir_names(dirs),
            position as int,
        ),
        CatalogError::EmptyGroup { directory } => {
            &&& all_among(expected, dir_names(dirs))
            &&& 0 <= directory < dirs.len()
            &&& wanted(dirs, expected, directory as int)
            &&& loads_before(dirs, expected, directory as int)
            &&& dirs[directory as int].files@.len() == 0
        },
        CatalogError::Undecodable { directory, file } => {
            &&& all_among(expected, dir_names(dirs))
            &&& 0 <= directory < dirs.len()
            &&& wanted(dirs, expected, directory as int)
            &&& loads_before(dirs, expected, directory as int)
            &&& first_unreadable(dirs[directory as int].files@, file as int)
        },
    }
}

/// The indices listed by `wanted_dirs` are indices of wanted directories.
pub proof fn lemma_wanted_dirs_in_range(dirs: Seq<GroupDir>, expected: Seq<Seq<char>>, n: int)
    requires
        0 <= n <= dirs.len(),
    ensures
        forall|k: int|
            0 <= k < wanted_dirs(dirs, expected, n).len() ==> 0 <= #[trigger] wanted_dirs(
                dirs,
                expected,
                n,
            )[k] < n && wanted(dirs, expected, wanted_dirs(dirs, expected, n)[k]),
    decreases n,
{
    if n > 0 {
        lemma_wanted_dirs_in_range(dirs, expected, n - 1);
        let before = wanted_dirs(dirs, expected, n - 1);
        let listed = wanted_dirs(dirs, expected, n);
        assert forall|k: int| 0 <= k < listed.len() implies 0 <= #[trigger] listed[k] < n && wanted(
            dirs,
            expected,
            listed[k],
        ) by {
            if k < before.len() {
                assert(listed[k] == before[k]);
            }
        }
    }
}

/// Decodes a layer file into an option with the default weight.
pub fn load_option(file: &LayerFile) -> (out: Option<LayerOption>)
    ensures
        out is Some <==> readable(file.bytes@),
        out matches Some(option) ==> option_from(*file, option),
{
    match decode(&file.bytes) {
        Ok(image) => Some(LayerOption::new(trait_name(&file.file_name), image)),
        Err(_) => None,
    }
}

/// Builds the group that a directory gives.
pub fn load_group(dir: &GroupDir) -> (out: Result<LayerGroup, GroupFault>)
    ensures
        out is Ok <==> loads(*dir),
        match out {
            Ok(group) => group_from(*dir, group),
            Err(GroupFault::Empty) => dir.files@.len() == 0,
            Err(GroupFault::Undecodable { file }) => first_unreadable(dir.files@, file as int),
        },
{
    let n: usize = dir.files.len();
    if n == 0 {
        return Err(GroupFault::Empty);
    }
    let mut options: Vec<LayerOption> = Vec::new();
    let mut k: usize = 0;
    while k < n
        invariant
            k <= n,
            n == dir.files@.len(),
            options@.len() == k,
            forall|m: int| 0 <= m < k ==> readable((#[trigger] dir.files@[m]).bytes@),
            forall|m: int| 0 <= m < k ==> option_from(dir.files@[m], #[trigger] options@[m]),
        decreases n - k,
    {
        match load_option(&dir.files[k]) {
            Some(option) => {
                options.push(option);
            },
            None => {
                return Err(GroupFault::Undecodable { file: k });
            },
        }
        k = k + 1;
    }
    proof {
        let weights = weights_of(options@);
        assert(options@[n - 1].weight == 1);
        assert(cumulative(weights, n as int) == cumulative(weights, n - 1) + weights[n - 1]);
        assert forall|m: int| 0 <= m < options@.len() implies (#[trigger] options@[m]).wf() by {
            assert(option_from(dir.files@[m], options@[m]));
        }
    }
    match LayerGroup::new(dir.name.clone(), options) {
        Ok(group) => Ok(group),
        Err(_) => Err(GroupFault::Empty),
    }
}

/// The first directory of the listing whose name is `name`.
fn find_dir(dirs: &Vec<GroupDir>, name: &String) -> (found: Option<usize>)
    ensures
        found matches Some(k) ==> k < dirs@.len() && dirs@[k as int].name@ == name@
            && forall|m: int| 0 <= m < k ==> dirs@[m].name@ != name@,
        found is None ==> forall|m: int| 0 <= m < dirs@.len() ==> dirs@[m].name@ != name@,
{
    let mut k: usize = 0;
    while k < dirs.len()
        invariant
            k <= dirs@.len(),
            forall|m: int| 0 <= m < k ==> dirs@[m].name@ != name@,
        decreases dirs@.len() - k,
    {
        if dirs[k].name == *name {
            return Some(k);
        }
        k = k + 1;
    }
    None
}

/// Builds the groups of a listing: one per directory with an expected
/// name, in the order of the listing. Other directories are passed over.
///
/// Fails when an expected name has no directory, naming the first such
/// position; else at the first directory with an expected name that holds
/// no file or holds a file that is no image.
pub fn load_groups(dirs: &Vec<GroupDir>, expected: &Vec<String>) -> (out: Result<
    Vec<LayerGroup>,
    CatalogError,
>)
    ensures
        out is Ok <==> loadable(dirs@, texts(expected@)),
        match out {
            Ok(groups) => groups_from(dirs@, texts(expected@), dirs@.len() as int, groups@)
                && catalog_wf(groups@),
            Err(fault) => faulted(dirs@, texts(expected@), fault),
        },
{
    let ghost names = texts(expected@);
    let ghost found = dir_names(dirs@);
    let mut p: usize = 0;
    while p < expected.len()
        invariant
            p <= expected@.len(),
            names == texts(expected@),
            found == dir_names(dirs@),
            forall|k: int| 0 <= k < p ==> found.contains(#[trigger] names[k]),
        decreases expected@.len() - p,
    {
        match find_dir(dirs, &expected[p]) {
            Some(d) => {
                assert(found[d as int] == names[p as int]);
            },
            None => {
                proof {
                    assert forall|m: int| 0 <= m < found.len() implies found[m] != names[p as int] by {
                        assert(found[m] == dirs@[m].name@);
                    }
                    assert(!found.contains(names[p as int]));
                    assert(!all_among(names, found));
                }
                return Err(CatalogError::MissingGroup { position: p });
            },
        }
        p = p + 1;
    }
    let mut groups: Vec<LayerGroup> = Vec::new();
    let mut d: usize = 0;
    while d < dirs.len()
        invariant
            d <= dirs@.len(),
            names == texts(expected@),
            found == dir_names(dirs@),
            all_among(names, found),
            loads_before(dirs@, names, d as int),
            groups_from(dirs@, names, d as int, groups@),
            catalog_wf(groups@),
        decreases dirs@.len() - d,
    {
        let ghost before = groups@;
        match find_name(expected, &dirs[d].name, expected.len()) {
            None => {
                proof {
                    assert forall|m: int| 0 <= m < names.len() implies names[m] != dirs@[d as int].name@ by {
                        assert(names[m] == expected@[m]@);
                    }
                    assert(!wanted(dirs@, names, d as int));
                }
            },
            Some(at) => {
                proof {
                    assert(names[at as int] == dirs@[d as int].name@);
                    assert(wanted(dirs@, names, d as int));
                }
                match load_group(&dirs[d]) {
                    Ok(group) => {
                        groups.push(group);
                        proof {
                            let listed = wanted_dirs(dirs@, names, d + 1);
                            assert(listed == wanted_dirs(dirs@, names, d as int).push(d as int));
                            assert forall|k: int| 0 <= k < groups@.len() implies group_from(
                                dirs@[listed[k]],
                                #[trigger] groups@[k],
                            ) by {
                                if k < before.len() {
                                    assert(groups@[k] == before[k]);
                                }
                            }
                        }
                    },
                    Err(GroupFault::Empty) => {
                        assert(!loads(dirs@[d as int]));
                        return Err(CatalogError::EmptyGroup { directory: d });
                    },
                    Err(GroupFault::Undecodable { file }) => {
                        assert(!loads(dirs@[d as int]));
                        return Err(CatalogError::Undecodable { directory: d, file });
                    },
                }
            },
        }
        d = d + 1;
    }
    Ok(groups)
}

/// The names of the groups that a listing gives are the names of its
/// wanted directories, so each of them is expected.
pub proof fn lemma_loaded_names_expected(
    dirs: Seq<GroupDir>,
    expected: Seq<Seq<char>>,
    groups: Seq<LayerGroup>,
)
    requires
        groups_from(dirs, expected, dirs.len() as int, groups),
    ensures
        all_among(names_of(groups), expected),
{
    lemma_wanted_dirs_in_range(dirs, expected, dirs.len() as int);
    assert forall|k: int| 0 <= k < names_of(groups).len() implies expected.contains(
        #[trigger] names_of(groups)[k],
    ) by {
        let d = wanted_dirs(dirs, expected, dirs.len() as int)[k];
        assert(group_from(dirs[d], groups[k]));
        assert(wanted(dirs, expected, d));
    }
}

/// Where every expected name has a directory, every expected name is the
/// name of a group that the listing gives.
pub proof fn lemma_expected_names_loaded(
    dirs: Seq<GroupDir>,
    expected: Seq<Seq<char>>,
    groups: Seq<LayerGroup>,
)
    requires
        groups_from(dirs, expected, dirs.len() as int, groups),
        all_among(expected, dir_names(dirs)),
    ensures
        all_among(expected, names_of(groups)),
{
    assert forall|p: int| 0 <= p < expected.len() implies names_of(groups).contains(
        #[trigger] expected[p],
    ) by {
        assert(dir_names(dirs).contains(expected[p]));
        let d = choose|d: int| 0 <= d < dir_names(dirs).len() && dir_names(dirs)[d] == expected[p];
        assert(dirs[d].name@ == expected[p]);
        assert(wanted(dirs, expected, d));
        lemma_wanted_dir_listed(dirs, expected, dirs.len() as int, d);
        let listed = wanted_dirs(dirs, expected, dirs.len() as int);
        let k = choose|k: int| 0 <= k < listed.len() && listed[k] == d;
        assert(group_from(dirs[listed[k]], groups[k]));
        assert(names_of(groups)[k] == expected[p]);
    }
}

/// Builds the catalog of a listing: loads the groups of the directories
/// named in `order` and returns them ranked and sorted by that list.
///
/// `scan` is the listing of the root, `None` where the root does not exist
/// or cannot be read.
pub fn load_catalog(scan: Option<Vec<GroupDir>>, order: &Vec<String>) -> (out: Result<
    Vec<LayerGroup>,
    LoadError,
>)
    ensures
        out is Ok <==> (scan matches Some(dirs) && loadable(dirs@, texts(order@)) && distinct(
            texts(order@),
        ) && distinct(wanted_names(dirs@, texts(order@)))),
        match out {
            Ok(catalog) => {
                &&& scan matches Some(dirs)
                &&& loadable(dirs@, texts(order@))
                &&& distinct(texts(order@))
                &&& distinct(wanted_names(dirs@, texts(order@)))
                &&& catalog_wf(catalog@)
                &&& catalog@.len() == order@.len()
                &&& forall|i: int|
                    0 <= i < catalog@.len() ==> (#[trigger] catalog@[i]).spec_rank() == i
                        && catalog@[i].spec_name() == order@[i]@
                &&& forall|i: int, d: int|
                    0 <= i < catalog@.len() && 0 <= d < dirs@.len() && dirs@[d].name@ == order@[i]@
                        ==> (#[trigger] catalog@[i]).spec_options().len() == (
                    #[trigger] dirs@[d]).files@.len() && forall|k: int|
                        0 <= k < dirs@[d].files@.len() ==> option_from(
                            dirs@[d].files@[k],
                            #[trigger] catalog@[i].spec_options()[k],
                        )
            },
            Err(LoadError::Catalog(CatalogError::RootUnreadable)) => scan is None,
            Err(LoadError::Catalog(fault)) => scan matches Some(dirs) && faulted(
                dirs@,
                texts(order@),
                fault,
            ),
            Err(LoadError::Order(fault)) => scan matches Some(dirs) && loadable(
                dirs@,
                texts(order@),
            ) && misordered(wanted_names(dirs@, texts(order@)), texts(order@), fault) && (fault
                is DuplicateName || fault is DuplicateGroup),
        },
{
    let dirs = match scan {
        None => {
            return Err(LoadError::Catalog(CatalogError::RootUnreadable));
        },
        Some(dirs) => dirs,
    };
    let groups = match load_groups(&dirs, order) {
        Err(fault) => {
            return Err(LoadError::Catalog(fault));
        },
        Ok(groups) => groups,
    };
    let ghost loaded = groups@;
    let ghost names = texts(order@);
    proof {
        assert(names_of(loaded) =~= wanted_names(dirs@, names)) by {
            assert forall|k: int| 0 <= k < loaded.len() implies names_of(loaded)[k]
                == wanted_names(dirs@, names)[k] by {
                assert(group_from(
                    dirs@[wanted_dirs(dirs@, names, dirs@.len() as int)[k]],
                    loaded[k],
                ));
            }
        }
    }
    match order_groups(groups, order) {
        Err(fault) => {
            proof {
                lemma_loaded_names_expected(dirs@, names, loaded);
                lemma_expected_names_loaded(dirs@, names, loaded);
            }
            Err(LoadError::Order(fault))
        },
        Ok(catalog) => {
            proof {
                lemma_wanted_dirs_in_range(dirs@, names, dirs@.len() as int);
                assert forall|i: int| 0 <= i < catalog@.len() implies (#[trigger] catalog@[i]).wf() by {
                    assert(names_of(loaded).contains(names[i]));
                    let j = choose|j: int|
                        0 <= j < names_of(loaded).len() && names_of(loaded)[j] == names[i];
                    assert(loaded[j].spec_name() == order@[i]@);
                    assert(catalog@[i].same_content(&loaded[j]));
                    assert(loaded[j].wf());
                }
                assert forall|i: int, d: int|
                    0 <= i < catalog@.len() && 0 <= d < dirs@.len() && dirs@[d].name@
                        == order@[i]@ implies (#[trigger] catalog@[i]).spec_options().len() == (
                #[trigger] dirs@[d]).files@.len() && forall|k: int|
                    0 <= k < dirs@[d].files@.len() ==> option_from(
                        dirs@[d].files@[k],
                        #[trigger] catalog@[i].spec_options()[k],
                    ) by {
                    assert(names_of(loaded).contains(names[i]));
                    let j = choose|j: int|
                        0 <= j < names_of(loaded).len() && names_of(loaded)[j] == names[i];
                    assert(loaded[j].spec_name() == order@[i]@);
                    assert(catalog@[i].same_content(&loaded[j]));
                    let e = wanted_dirs(dirs@, names, dirs@.len() as int)[j];
                    assert(group_from(dirs@[e], loaded[j]));
                    lemma_same_name_same_dir(dirs@, names, loaded, d, j);
                }
            }
            Ok(catalog)
        },
    }
}

/// Where the loaded groups have distinct names, a directory with the name
/// of a loaded group is the directory that the group was loaded from.
proof fn lemma_same_name_same_dir(
    dirs: Seq<GroupDir>,
    expected: Seq<Seq<char>>,
    groups: Seq<LayerGroup>,
    d: int,
    j: int,
)
    requires
        groups_from(dirs, expected, dirs.len() as int, groups),
        distinct(names_of(groups)),
        0 <= d < dirs.len(),
        0 <= j < groups.len(),
        dirs[d].name@ == groups[j].spec_name(),
        wanted(dirs, expected, d),
    ensures
        wanted_dirs(dirs, expected, dirs.len() as int)[j] == d,
{
    let listed = wanted_dirs(dirs, expected, dirs.len() as int);
    lemma_wanted_dirs_in_range(dirs, expected, dirs.len() as int);
    lemma_wanted_dir_listed(dirs, expected, dirs.len() as int, d);
    let k = choose|k: int| 0 <= k < listed.len() && listed[k] == d;
    assert(group_from(dirs[listed[k]], groups[k]));
    assert(group_from(dirs[listed[j]], groups[j]));
    if k != j {
        let lo = if k < j { k } else { j };
        let hi = if k < j { j } else { k };
        assert(names_of(groups)[lo] == names_of(groups)[hi]);
        assert(repeats(names_of(groups), hi));
    }
}

/// Every wanted directory among the first `n` is listed by `wanted_dirs`.
proof fn lemma_wanted_dir_listed(dirs: Seq<GroupDir>, expected: Seq<Seq<char>>, n: int, d: int)
    requires
        0 <= d < n <= dirs.len(),
        wanted(dirs, expected, d),
    ensures
        exists|k: int|
            0 <= k < wanted_dirs(dirs, expected, n).len() && wanted_dirs(dirs, expected, n)[k] == d,
    decreases n,
{
    if d == n - 1 {
        let listed = wanted_dirs(dirs, expected, n);
        assert(listed[listed.len() - 1] == d);
    } else {
        lemma_wanted_dir_listed(dirs, expected, n - 1, d);
        let before = wanted_dirs(dirs, expected, n - 1);
        let k = choose|k: int| 0 <= k < before.len() && before[k] == d;
        assert(wanted_dirs(dirs, expected, n)[k] == d);
    }
}

} // verus!
