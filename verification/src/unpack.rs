//! Unpacking of archives: which method a file takes, and what the volumes of a set are
//! called.
use vstd::prelude::*;

use crate::engine;
use crate::engine::sanitize_yenc_name;
use crate::error::concat;
use crate::order;
use crate::order::{sort, Precedence};
use crate::text;
use crate::text::{chars_of, contains, ends_with, extension_of, find_last, is_text_before, same_text, string_of, to_decimal_filled, to_lowercase};

verus! {

/// What came out of an archive.
#[derive(Debug)]
pub struct UnpackReport {
    /// The names of the files.
    pub extracted_files: Vec<String>,
    /// Their size.
    pub total_bytes: u64,
    /// Whether a password was needed.
    pub was_encrypted: bool,
}

/// What an [`UnpackReport`] says.
#[verifier::ext_equal]
pub struct UnpackView {
    pub extracted_files: Seq<Seq<char>>,
    pub total_bytes: u64,
    pub was_encrypted: bool,
}

impl View for UnpackReport {
    type V = UnpackView;

    open spec fn view(&self) -> UnpackView {
        UnpackView {
            extracted_files: text::strings(self.extracted_files@),
            total_bytes: self.total_bytes,
            was_encrypted: self.was_encrypted,
        }
    }
}

impl Clone for UnpackReport {
    fn clone(&self) -> (r: Self)
        ensures
            r@ == self@,
    {
        UnpackReport {
            extracted_files: crate::types::copy_texts(&self.extracted_files),
            total_bytes: self.total_bytes,
            was_encrypted: self.was_encrypted,
        }
    }
}

/// Why an archive was not unpacked.
#[derive(Debug)]
pub enum UnpackError {
    Unrar(String),
    Sevenz(String),
    Io(String),
    Unsupported(String),
}

/// What an [`UnpackError`] says.
pub enum UnpackErrorView {
    Unrar(Seq<char>),
    Sevenz(Seq<char>),
    Io(Seq<char>),
    Unsupported(Seq<char>),
}

impl View for UnpackError {
    type V = UnpackErrorView;

    open spec fn view(&self) -> UnpackErrorView {
        match self {
            UnpackError::Unrar(m) => UnpackErrorView::Unrar(m@),
            UnpackError::Sevenz(m) => UnpackErrorView::Sevenz(m@),
            UnpackError::Io(m) => UnpackErrorView::Io(m@),
            UnpackError::Unsupported(m) => UnpackErrorView::Unsupported(m@),
        }
    }
}

impl UnpackErrorView {
    /// The error in words.
    pub open spec fn words(self) -> Seq<char> {
        match self {
            UnpackErrorView::Unrar(m) => "unrar error: "@ + m,
            UnpackErrorView::Sevenz(m) => "7z error: "@ + m,
            UnpackErrorView::Io(m) => "I/O error: "@ + m,
            UnpackErrorView::Unsupported(m) => "unsupported archive format: "@ + m,
        }
    }
}

impl UnpackError {
    /// The error in words.
    pub fn message(&self) -> (r: String)
        ensures
            r@ == self@.words(),
    {
        match self {
            UnpackError::Unrar(m) => concat("unrar error: ", m),
            UnpackError::Sevenz(m) => concat("7z error: ", m),
            UnpackError::Io(m) => concat("I/O error: ", m),
            UnpackError::Unsupported(m) => concat("unsupported archive format: ", m),
        }
    }
}

/// How an archive is unpacked.
#[derive(Debug, Clone, Copy, PartialEq, Eq, Structural)]
pub enum UnpackMethod {
    /// As a 7z archive in parts, which are put together first.
    SplitSevenz,
    /// As a RAR archive, with the volumes that follow.
    Rar,
    /// As a 7z archive.
    Sevenz,
}

/// Whether an extension is three digits.
pub open spec fn is_part_number(ext: Seq<char>) -> bool {
    ext.len() == 3 && text::all_digits(ext)
}

/// How an archive is unpacked, given its name in lower case, its extension, and that in
/// lower case.
pub open spec fn method(
    low_name: Seq<char>,
    ext: Option<Seq<char>>,
    low_ext: Seq<char>,
) -> Result<UnpackMethod, UnpackErrorView> {
    if text::has_suffix(low_name, ".7z.001"@) {
        Ok(UnpackMethod::SplitSevenz)
    } else if ext is Some && is_part_number(ext->0) && ext->0 != "001"@ {
        Err(
            UnpackErrorView::Unsupported(
                "split file part ."@ + ext->0 + " — reassemble manually"@,
            ),
        )
    } else if low_ext == "rar"@ {
        Ok(UnpackMethod::Rar)
    } else if low_ext == "7z"@ {
        Ok(UnpackMethod::Sevenz)
    } else {
        Err(UnpackErrorView::Unsupported("unknown archive format: "@ + low_ext))
    }
}

/// The extension of a file name in lower case; nothing where there is none.
pub open spec fn low_extension(name: Seq<char>) -> Seq<char> {
    match text::extension(name) {
        Some(e) => text::lowered(e),
        None => Seq::empty(),
    }
}

/// An outcome by what its error says.
pub open spec fn method_outcome(r: Result<UnpackMethod, UnpackError>) -> Result<
    UnpackMethod,
    UnpackErrorView,
> {
    match r {
        Ok(m) => Ok(m),
        Err(e) => Err(e@),
    }
}

fn all_digits(s: &[char]) -> (r: bool)
    ensures
        r == text::all_digits(s@),
{
    let mut i: usize = 0;
    while i < s.len()
        invariant
            i <= s.len(),
            forall|k: int| 0 <= k < i ==> text::is_digit(#[trigger] s@[k]),
        decreases s.len() - i,
    {
        let n: u32 = s[i] as u32;
        if n < 48 || n > 57 {
            return false;
        }
        i += 1;
    }
    true
}

/// How an archive is unpacked, given its name in lower case, its extension, and that in
/// lower case.
pub fn choose_method(low_name: &str, ext: &Option<String>, low_ext: &str) -> (r: Result<
    UnpackMethod,
    UnpackError,
>)
    ensures
        method_outcome(r) == method(low_name@, crate::types::text_of(*ext), low_ext@),
{
    let name = chars_of(low_name);
    if ends_with(&name, ".7z.001") {
        return Ok(UnpackMethod::SplitSevenz);
    }
    if let Some(e) = ext {
        let cs = chars_of(e);
        if cs.len() == 3 && all_digits(&cs) && !same_text(e, "001") {
            let mut m = concat("split file part .", e);
            m.append(" — reassemble manually");
            return Err(UnpackError::Unsupported(m));
        }
    }
    if same_text(low_ext, "rar") {
        Ok(UnpackMethod::Rar)
    } else if same_text(low_ext, "7z") {
        Ok(UnpackMethod::Sevenz)
    } else {
        Err(UnpackError::Unsupported(concat("unknown archive format: ", low_ext)))
    }
}

/// How the archive with this file name is unpacked.
pub fn unpack(file_name: &str) -> (r: Result<UnpackMethod, UnpackError>)
    ensures
        method_outcome(r) == method(
            text::lowered(file_name@),
            text::extension(file_name@),
            low_extension(file_name@),
        ),
{
    let low_name = to_lowercase(file_name);
    let ext = extension_of(file_name);
    let low_ext = match &ext {
        Some(e) => to_lowercase(e),
        None => String::new(),
    };
    assert(ext is None ==> low_ext@ =~= Seq::empty());
    choose_method(&low_name, &ext, &low_ext)
}

/// Whether a name, in lower case, is that of a further RAR volume, such as `file.r00`.
pub open spec fn is_volume_name(low: Seq<char>) -> bool {
    let n = low.len() as int;
    n >= 4 && text::is_digit(low[n - 1]) && text::is_digit(low[n - 2]) && low[n - 3] == 'r'
        && low[n - 4] == '.'
}

/// Whether a name, in lower case, is that of a further RAR volume, such as `file.r00`.
pub fn is_low_part_name(low: &str) -> (r: bool)
    ensures
        r == is_volume_name(low@),
{
    let cs = chars_of(low);
    let n: usize = cs.len();
    if n < 4 {
        return false;
    }
    let a: u32 = cs[n - 1] as u32;
    let b: u32 = cs[n - 2] as u32;
    48 <= a && a <= 57 && 48 <= b && b <= 57 && cs[n - 3] == 'r' && cs[n - 4] == '.'
}

/// Whether a name is that of a further RAR volume, such as `file.r00`.
pub fn is_rar_part_name(name: &str) -> (r: bool)
    ensures
        r == is_volume_name(text::lowered(name@)),
{
    is_low_part_name(&to_lowercase(name))
}

/// Whether a name, in lower case, is one that was made up for a RAR file, such as
/// `name.001.rar`.
pub open spec fn is_generic_rar(low: Seq<char>) -> bool {
    let stem = low.take(low.len() - 4);
    text::has_suffix(low, ".rar"@) && match text::last_index(stem, '.') {
        Some(dot) => is_part_number(stem.skip(dot + 1)),
        None => false,
    }
}

/// Whether a name, in lower case, is one that was made up for a RAR file.
pub fn is_low_generic_name(low: &str) -> (r: bool)
    ensures
        r == is_generic_rar(low@),
{
    let cs = chars_of(low);
    if !ends_with(&cs, ".rar") {
        return false;
    }
    proof {
        reveal_strlit(".rar");
    }
    let stem = vstd::slice::slice_subrange(cs.as_slice(), 0, cs.len() - 4);
    assert(stem@ == low@.take(low@.len() - 4));
    match find_last(stem, '.') {
        Some(dot) => {
            let digits = vstd::slice::slice_subrange(stem, dot + 1, stem.len());
            assert(digits@ == stem@.skip(dot + 1));
            digits.len() == 3 && all_digits(digits)
        },
        None => false,
    }
}

/// Whether a name is one that was made up for a RAR file, such as `name.001.rar`.
pub fn looks_generic_rar_name(name: &str) -> (r: bool)
    ensures
        r == is_generic_rar(text::lowered(name@)),
{
    is_low_generic_name(&to_lowercase(name))
}

/// What the headers of a RAR file say of its place in a set.
#[derive(Debug, Clone, Copy, PartialEq, Eq, Structural)]
pub enum VolumeKind {
    /// The first volume.
    First,
    /// A further volume.
    Subsequent,
    /// Not part of a set, or unreadable.
    Single,
}

/// Orders names by the dictionary.
pub struct ByName;

/// By the dictionary.
pub open spec fn by_name() -> spec_fn(Seq<char>, Seq<char>) -> bool {
    |a: Seq<char>, b: Seq<char>| text::text_before(a, b)
}

impl Precedence<String> for ByName {
    open spec fn before(&self, a: Seq<char>, b: Seq<char>) -> bool {
        by_name()(a, b)
    }

    fn is_before(&self, a: &String, b: &String) -> (r: bool) {
        is_text_before(a, b)
    }
}

/// Which of the file names of a directory are made-up RAR names, in dictionary order.
pub fn generic_rar_names(names: &Vec<String>) -> (r: Vec<String>)
    ensures
        order::views(r@) == order::sorted(
            order::views(names@).filter(|n: Seq<char>| is_generic_rar(text::lowered(n))),
            by_name(),
        ),
{
    let ghost all = order::views(names@);
    let ghost keep = |n: Seq<char>| is_generic_rar(text::lowered(n));
    let mut r: Vec<String> = Vec::new();
    proof {
        reveal(Seq::filter);
        assert(all.take(0) == Seq::<Seq<char>>::empty());
        assert(order::views(r@) =~= all.take(0).filter(keep));
    }
    for i in 0..names.len()
        invariant
            all == order::views(names@),
            keep == (|n: Seq<char>| is_generic_rar(text::lowered(n))),
            order::views(r@) == all.take(i as int).filter(keep),
    {
        proof {
            assert(all[i as int] == names@[i as int]@);
            assert(all.take(i + 1) == all.take(i as int).push(all[i as int]));
            order::filter_of_push(all.take(i as int), all[i as int], keep);
        }
        if looks_generic_rar_name(&names[i]) {
            let ghost had = order::views(r@);
            r.push(names[i].clone());
            assert(order::views(r@) =~= had.push(all[i as int]));
        }
    }
    assert(all.take(all.len() as int) == all);
    sort(&mut r, &ByName);
    assert(order::rule::<String, ByName>(ByName) =~= by_name());
    r
}

/// The stem that the volumes of a set get: `stem` made safe, or a fixed one.
pub open spec fn volume_stem(stem: Seq<char>) -> Seq<char> {
    if text::trimmed(stem).len() == 0 {
        "release"@
    } else {
        engine::sanitized(stem)
    }
}

/// The index of the first volume that is marked as the first; 0 where none is.
pub open spec fn main_volume(volumes: Seq<(Seq<char>, bool)>) -> int {
    let i = first_marked(volumes) as int;
    if i < volumes.len() {
        i
    } else {
        0
    }
}

/// The index of the first volume that is marked; their number where none is.
pub open spec fn first_marked(volumes: Seq<(Seq<char>, bool)>) -> nat
    decreases volumes.len(),
{
    if volumes.len() == 0 {
        0
    } else if volumes[0].1 {
        0
    } else {
        1 + first_marked(volumes.skip(1))
    }
}

/// The name of the further volume `n` of a set.
pub open spec fn volume_name(stem: Seq<char>, n: nat) -> Seq<char> {
    stem + ".r"@ + text::zero_filled(text::decimal(n), 2)
}

/// The number of further volumes among the first `i` that get a new name.
pub open spec fn numbered_before(volumes: Seq<(Seq<char>, bool)>, main: int, i: int) -> nat
    decreases i,
{
    if i <= 0 {
        0
    } else {
        numbered_before(volumes, main, i - 1) + if is_numbered(volumes, main, i - 1) {
            1nat
        } else {
            0nat
        }
    }
}

/// Whether the volume `i` is numbered: it is not the main one, and has no name of a volume.
pub open spec fn is_numbered(volumes: Seq<(Seq<char>, bool)>, main: int, i: int) -> bool {
    i != main && !is_volume_name(text::lowered(volumes[i].0))
}

/// The name that the volume `i` is to have.
pub open spec fn wanted_name(
    volumes: Seq<(Seq<char>, bool)>,
    main: int,
    stem: Seq<char>,
    i: int,
) -> Seq<char> {
    if i == main {
        stem + ".rar"@
    } else if is_numbered(volumes, main, i) {
        volume_name(stem, numbered_before(volumes, main, i))
    } else {
        volumes[i].0
    }
}

/// The renames of the further volumes among the first `i`, in order.
pub open spec fn renames_before(
    volumes: Seq<(Seq<char>, bool)>,
    main: int,
    stem: Seq<char>,
    i: int,
) -> Seq<(Seq<char>, Seq<char>)>
    decreases i,
{
    if i <= 0 {
        Seq::empty()
    } else {
        let before = renames_before(volumes, main, stem, i - 1);
        let wanted = wanted_name(volumes, main, stem, i - 1);
        if i - 1 != main && wanted != volumes[i - 1].0 {
            before.push((volumes[i - 1].0, wanted))
        } else {
            before
        }
    }
}

/// The renames that give the volumes of a set their names: first the main one, then the
/// others.
pub open spec fn renames(volumes: Seq<(Seq<char>, bool)>, stem: Seq<char>) -> Seq<
    (Seq<char>, Seq<char>),
> {
    let main = main_volume(volumes);
    if volumes.len() == 0 {
        Seq::empty()
    } else {
        (if volumes[main].0 != stem + ".rar"@ {
            seq![(volumes[main].0, stem + ".rar"@)]
        } else {
            Seq::empty()
        }) + renames_before(volumes, main, stem, volumes.len() as int)
    }
}

/// The files that are part of a set, and whether each is the first volume.
pub open spec fn volumes_in(classified: Seq<(String, VolumeKind)>) -> Seq<(Seq<char>, bool)>
    decreases classified.len(),
{
    if classified.len() == 0 {
        Seq::empty()
    } else {
        let before = volumes_in(classified.drop_last());
        let (name, kind) = classified.last();
        match kind {
            VolumeKind::First => before.push((name@, true)),
            VolumeKind::Subsequent => before.push((name@, false)),
            VolumeKind::Single => before,
        }
    }
}

/// What a list of renames holds.
pub open spec fn rename_views(v: Seq<(String, String)>) -> Seq<(Seq<char>, Seq<char>)> {
    v.map_values(|p: (String, String)| (p.0@, p.1@))
}

/// What a list of volumes holds.
pub open spec fn volume_views(v: Seq<(String, bool)>) -> Seq<(Seq<char>, bool)> {
    v.map_values(|p: (String, bool)| (p.0@, p.1))
}

fn list_volumes(classified: &Vec<(String, VolumeKind)>) -> (r: Vec<(String, bool)>)
    ensures
        volume_views(r@) == volumes_in(classified@),
{
    let mut r: Vec<(String, bool)> = Vec::new();
    assert(classified@.take(0) == Seq::<(String, VolumeKind)>::empty());
    assert(volume_views(r@) =~= volumes_in(classified@.take(0)));
    for i in 0..classified.len()
        invariant
            volume_views(r@) == volumes_in(classified@.take(i as int)),
    {
        let ghost had = volume_views(r@);
        assert(classified@.take(i + 1).drop_last() == classified@.take(i as int));
        match classified[i].1 {
            VolumeKind::First => {
                r.push((classified[i].0.clone(), true));
                assert(volume_views(r@) =~= had.push((classified@[i as int].0@, true)));
            },
            VolumeKind::Subsequent => {
                r.push((classified[i].0.clone(), false));
                assert(volume_views(r@) =~= had.push((classified@[i as int].0@, false)));
            },
            VolumeKind::Single => {},
        }
    }
    assert(classified@.take(classified@.len() as int) == classified@);
    r
}

fn find_marked(volumes: &Vec<(String, bool)>) -> (r: usize)
    requires
        volumes.len() > 0,
    ensures
        r == main_volume(volume_views(volumes@)),
        r < volumes.len(),
{
    let ghost all = volume_views(volumes@);
    let mut i: usize = 0;
    assert(all.skip(0) == all);
    while i < volumes.len()
        invariant
            i <= volumes.len(),
            all == volume_views(volumes@),
            first_marked(all) == i + first_marked(all.skip(i as int)),
        decreases volumes.len() - i,
    {
        assert(all.skip(i as int)[0] == (volumes@[i as int].0@, volumes@[i as int].1));
        if volumes[i].1 {
            return i;
        }
        assert(all.skip(i as int).skip(1) == all.skip(i + 1));
        i += 1;
    }
    0
}

/// Whether a name that the volumes of a set would get is that of a file which is there.
pub open spec fn is_blocked(
    volumes: Seq<(Seq<char>, bool)>,
    stem: Seq<char>,
    present: Seq<Seq<char>>,
) -> bool {
    exists|k: int|
        0 <= k < renames(volumes, stem).len() && present.contains(
            (#[trigger] renames(volumes, stem)[k]).1,
        )
}

/// `stem` with as many underscores behind it, up to `most`, as it takes until no new name is
/// that of a file which is there.
pub open spec fn free_stem(
    volumes: Seq<(Seq<char>, bool)>,
    stem: Seq<char>,
    present: Seq<Seq<char>>,
    most: nat,
) -> Seq<char>
    decreases most,
{
    if most > 0 && is_blocked(volumes, stem, present) {
        free_stem(volumes, stem.push('_'), present, (most - 1) as nat)
    } else {
        stem
    }
}

/// The length of the longest of a list of names.
pub open spec fn longest(names: Seq<Seq<char>>) -> nat
    decreases names.len(),
{
    if names.len() == 0 {
        0
    } else {
        let before = longest(names.drop_last());
        if names.last().len() > before {
            names.last().len()
        } else {
            before
        }
    }
}

proof fn lemma_longest(names: Seq<Seq<char>>, n: Seq<char>)
    requires
        names.contains(n),
    ensures
        n.len() <= longest(names),
    decreases names.len(),
{
    let k = choose|k: int| 0 <= k < names.len() && names[k] == n;
    if k < names.len() - 1 {
        assert(names.drop_last()[k] == n);
        lemma_longest(names.drop_last(), n);
    }
}

proof fn lemma_new_names_are_longer(
    volumes: Seq<(Seq<char>, bool)>,
    main: int,
    stem: Seq<char>,
    i: int,
    k: int,
)
    requires
        0 <= i <= volumes.len(),
        0 <= k < renames_before(volumes, main, stem, i).len(),
    ensures
        renames_before(volumes, main, stem, i)[k].1.len() > stem.len(),
    decreases i,
{
    reveal_strlit(".r");
    if k < renames_before(volumes, main, stem, i - 1).len() {
        lemma_new_names_are_longer(volumes, main, stem, i - 1, k);
    }
}

proof fn lemma_blocked_needs_longer(
    volumes: Seq<(Seq<char>, bool)>,
    stem: Seq<char>,
    present: Seq<Seq<char>>,
)
    requires
        is_blocked(volumes, stem, present),
    ensures
        stem.len() < longest(present),
{
    let all = renames(volumes, stem);
    let k = choose|k: int| 0 <= k < all.len() && present.contains((#[trigger] all[k]).1);
    let main = main_volume(volumes);
    let n = volumes.len() as int;
    let shift = if volumes[main].0 != stem + ".rar"@ {
        1int
    } else {
        0int
    };
    reveal_strlit(".rar");
    if k >= shift {
        lemma_new_names_are_longer(volumes, main, stem, n, k - shift);
        assert(all[k] == renames_before(volumes, main, stem, n)[k - shift]);
    }
    lemma_longest(present, all[k].1);
}

/// The stem that the volumes of a set get, among the files that are there.
pub open spec fn chosen_stem(
    volumes: Seq<(Seq<char>, bool)>,
    stem: Seq<char>,
    present: Seq<Seq<char>>,
) -> Seq<char> {
    free_stem(volumes, volume_stem(stem), present, longest(present))
}

proof fn lemma_free_stem(
    volumes: Seq<(Seq<char>, bool)>,
    stem: Seq<char>,
    present: Seq<Seq<char>>,
    most: nat,
)
    requires
        stem.len() + most >= longest(present),
    ensures
        !is_blocked(volumes, free_stem(volumes, stem, present, most), present),
    decreases most,
{
    if is_blocked(volumes, stem, present) {
        lemma_blocked_needs_longer(volumes, stem, present);
        lemma_free_stem(volumes, stem.push('_'), present, (most - 1) as nat);
    }
}

/// Files that are there are left alone: no volume gets the name of one. The stem that was asked
/// for is taken where its names are free.
pub proof fn renames_take_free_names(
    volumes: Seq<(Seq<char>, bool)>,
    stem: Seq<char>,
    present: Seq<Seq<char>>,
    k: int,
)
    requires
        0 <= k < renames(volumes, chosen_stem(volumes, stem, present)).len(),
    ensures
        !present.contains(renames(volumes, chosen_stem(volumes, stem, present))[k].1),
        !is_blocked(volumes, volume_stem(stem), present) ==> chosen_stem(volumes, stem, present)
            == volume_stem(stem),
{
    lemma_free_stem(volumes, volume_stem(stem), present, longest(present));
}

proof fn lemma_numbers_grow(volumes: Seq<(Seq<char>, bool)>, main: int, i: int, j: int)
    requires
        0 <= i < j,
        is_numbered(volumes, main, i),
    ensures
        numbered_before(volumes, main, i) < numbered_before(volumes, main, j),
    decreases j,
{
    if i < j - 1 {
        lemma_numbers_grow(volumes, main, i, j - 1);
    }
}

proof fn lemma_volume_names_differ(stem: Seq<char>, n: nat, m: nat)
    requires
        n != m,
    ensures
        volume_name(stem, n) != volume_name(stem, m),
        volume_name(stem, n) != stem + ".rar"@,
{
    reveal_strlit(".r");
    reveal_strlit(".rar");
    let a = text::zero_filled(text::decimal(n), 2);
    let b = text::zero_filled(text::decimal(m), 2);
    text::decimal_is_read_back(n, n);
    text::decimal_is_read_back(m, m);
    text::zeros_keep_value(text::decimal(n), 2);
    text::zeros_keep_value(text::decimal(m), 2);
    let head = stem + ".r"@;
    assert(a =~= volume_name(stem, n).skip(head.len() as int));
    assert(b =~= volume_name(stem, m).skip(head.len() as int));
    let at = stem.len() + 2int;
    assert((stem + ".rar"@)[at] == 'a');
    assert(volume_name(stem, n)[at] == a[0]);
    assert(a[0] == '0' || a[0] == text::decimal(n)[0]);
}

proof fn lemma_renamed_volume(
    volumes: Seq<(Seq<char>, bool)>,
    main: int,
    stem: Seq<char>,
    i: int,
    k: int,
) -> (j: int)
    requires
        0 <= i <= volumes.len(),
        0 <= k < renames_before(volumes, main, stem, i).len(),
    ensures
        0 <= j < i,
        is_numbered(volumes, main, j),
        renames_before(volumes, main, stem, i)[k].1 == volume_name(
            stem,
            numbered_before(volumes, main, j),
        ),
    decreases i,
{
    if k < renames_before(volumes, main, stem, i - 1).len() {
        lemma_renamed_volume(volumes, main, stem, i - 1, k)
    } else {
        i - 1
    }
}

proof fn lemma_further_names_differ(
    volumes: Seq<(Seq<char>, bool)>,
    main: int,
    stem: Seq<char>,
    i: int,
    k: int,
    l: int,
)
    requires
        0 <= i <= volumes.len(),
        0 <= k < l < renames_before(volumes, main, stem, i).len(),
    ensures
        renames_before(volumes, main, stem, i)[k].1 != renames_before(volumes, main, stem, i)[l].1,
    decreases i,
{
    let before = renames_before(volumes, main, stem, i - 1);
    if l < before.len() {
        lemma_further_names_differ(volumes, main, stem, i - 1, k, l);
    } else {
        let j = lemma_renamed_volume(volumes, main, stem, i - 1, k);
        lemma_numbers_grow(volumes, main, j, i - 1);
        lemma_volume_names_differ(
            stem,
            numbered_before(volumes, main, j),
            numbered_before(volumes, main, i - 1),
        );
    }
}

/// No two volumes get the same name.
pub proof fn new_names_differ(
    volumes: Seq<(Seq<char>, bool)>,
    stem: Seq<char>,
    k: int,
    l: int,
)
    requires
        0 <= k < l < renames(volumes, stem).len(),
    ensures
        renames(volumes, stem)[k].1 != renames(volumes, stem)[l].1,
{
    let main = main_volume(volumes);
    let n = volumes.len() as int;
    let further = renames_before(volumes, main, stem, n);
    let shift = renames(volumes, stem).len() - further.len();
    assert(renames(volumes, stem)[l] == further[l - shift]);
    if k < shift {
        let j = lemma_renamed_volume(volumes, main, stem, n, l - shift);
        let m = numbered_before(volumes, main, j);
        lemma_volume_names_differ(stem, m, m + 1);
    } else {
        assert(renames(volumes, stem)[k] == further[k - shift]);
        lemma_further_names_differ(volumes, main, stem, n, k - shift, l - shift);
    }
}

fn rename_all(volumes: &Vec<(String, bool)>, safe: &str) -> (r: Vec<(String, String)>)
    ensures
        rename_views(r@) == renames(volume_views(volumes@), safe@),
{
    let ghost st = safe@;
    let ghost all = volume_views(volumes@);
    let mut r: Vec<(String, String)> = Vec::new();
    if volumes.len() == 0 {
        assert(rename_views(r@) =~= Seq::empty());
        return r;
    }
    let main: usize = find_marked(volumes);
    let main_name = concat(safe, ".rar");
    assert(all[main as int] == (volumes@[main as int].0@, volumes@[main as int].1));
    if !same_text(&volumes[main].0, &main_name) {
        r.push((volumes[main].0.clone(), main_name));
    }
    let ghost first = rename_views(r@);
    proof {
        assert(first =~= if all[main as int].0 != st + ".rar"@ {
            seq![(all[main as int].0, st + ".rar"@)]
        } else {
            Seq::empty()
        });
        assert(first + renames_before(all, main as int, st, 0) =~= first);
    }
    let mut n: usize = 0;
    let mut i: usize = 0;
    while i < volumes.len()
        invariant
            i <= volumes.len(),
            main < volumes.len(),
            all == volume_views(volumes@),
            st == safe@,
            n <= i,
            n == numbered_before(all, main as int, i as int),
            rename_views(r@) == first + renames_before(all, main as int, st, i as int),
        decreases volumes.len() - i,
    {
        let ghost had = rename_views(r@);
        assert(all[i as int] == (volumes@[i as int].0@, volumes@[i as int].1));
        if i != main && !is_rar_part_name(&volumes[i].0) {
            let mut wanted = concat(safe, ".r");
            wanted.append(&to_decimal_filled(n as u64, 2));
            assert(wanted@ == wanted_name(all, main as int, st, i as int));
            if !same_text(&volumes[i].0, &wanted) {
                let ghost w = wanted@;
                r.push((volumes[i].0.clone(), wanted));
                assert(rename_views(r@) =~= had.push((all[i as int].0, w)));
                assert(had.push((all[i as int].0, w)) =~= first + renames_before(
                    all,
                    main as int,
                    st,
                    i + 1,
                ));
            }
            n += 1;
        }
        i += 1;
    }
    r
}

fn is_any_taken(renames: &Vec<(String, String)>, present: &Vec<String>) -> (r: bool)
    ensures
        r == exists|k: int|
            0 <= k < rename_views(renames@).len() && text::strings(present@).contains(
                (#[trigger] rename_views(renames@)[k]).1,
            ),
{
    let ghost names = text::strings(present@);
    let ghost all = rename_views(renames@);
    let mut k: usize = 0;
    while k < renames.len()
        invariant
            k <= renames.len(),
            names == text::strings(present@),
            all == rename_views(renames@),
            forall|j: int| 0 <= j < k ==> !names.contains((#[trigger] all[j]).1),
        decreases renames.len() - k,
    {
        let mut i: usize = 0;
        assert(all[k as int].1 == renames@[k as int].1@);
        while i < present.len()
            invariant
                k < renames.len(),
                i <= present.len(),
                names == text::strings(present@),
                all == rename_views(renames@),
                all[k as int].1 == renames@[k as int].1@,
                forall|j: int| 0 <= j < i ==> #[trigger] names[j] != all[k as int].1,
            decreases present.len() - i,
        {
            assert(names[i as int] == present@[i as int]@);
            if same_text(&present[i], &renames[k].1) {
                assert(names.contains(all[k as int].1));
                return true;
            }
            i += 1;
        }
        k += 1;
    }
    false
}

fn longest_of(names: &Vec<String>) -> (r: usize)
    ensures
        r == longest(text::strings(names@)),
{
    let ghost all = text::strings(names@);
    let mut r: usize = 0;
    assert(all.take(0) == Seq::<Seq<char>>::empty());
    for i in 0..names.len()
        invariant
            all == text::strings(names@),
            r == longest(all.take(i as int)),
    {
        assert(all.take(i + 1).drop_last() == all.take(i as int));
        assert(all[i as int] == names@[i as int]@);
        let n: usize = chars_of(&names[i]).len();
        if n > r {
            r = n;
        }
    }
    assert(all.take(all.len() as int) == all);
    r
}

/// The renames that give the volumes of a set names by which the whole set can be unpacked.
/// `classified` are the made-up names, in order, with what the headers say of each; `present`
/// are the names of all files of the directory. None of these is given to a volume: where one
/// would be, the stem gets underscores behind it.
pub fn normalize_rar_volumes(
    classified: &Vec<(String, VolumeKind)>,
    present: &Vec<String>,
    stem: &str,
) -> (r: Vec<(String, String)>)
    ensures
        rename_views(r@) == renames(
            volumes_in(classified@),
            chosen_stem(volumes_in(classified@), stem@, text::strings(present@)),
        ),
        forall|k: int|
            0 <= k < r@.len() ==> !text::strings(present@).contains((#[trigger] r@[k]).1@),
{
    let mut safe = {
        let cs = chars_of(stem);
        if text::trim(&cs).len() == 0 {
            "release".to_owned()
        } else {
            sanitize_yenc_name(stem)
        }
    };
    let volumes = list_volumes(classified);
    let ghost all = volume_views(volumes@);
    let ghost names = text::strings(present@);
    let ghost chosen = chosen_stem(all, stem@, names);
    let mut most: usize = longest_of(present);
    let mut r = rename_all(&volumes, &safe);
    while is_any_taken(&r, present)
        invariant
            all == volume_views(volumes@),
            names == text::strings(present@),
            safe@.len() + most >= longest(names),
            chosen == free_stem(all, safe@, names, most as nat),
            rename_views(r@) == renames(all, safe@),
        decreases most,
    {
        proof {
            assert(is_blocked(all, safe@, names));
            lemma_blocked_needs_longer(all, safe@, names);
        }
        safe.push('_');
        most -= 1;
        r = rename_all(&volumes, &safe);
    }
    assert(!is_blocked(all, safe@, names));
    assert forall|k: int| 0 <= k < r@.len() implies !names.contains((#[trigger] r@[k]).1@) by {
        assert(rename_views(r@)[k].1 == r@[k].1@);
    }
    r
}

/// Whether an error message, in lower case, says that the next volume of a set is missing.
pub fn is_volume_message(low: &str) -> (r: bool)
    ensures
        r == text::has_infix(low@, "next volume"@),
{
    let cs = chars_of(low);
    contains(&cs, "next volume")
}

/// What has come out of an archive so far.
#[derive(Debug)]
pub struct Extraction {
    files: Vec<String>,
    total: u64,
    encrypted: bool,
}

impl View for Extraction {
    type V = UnpackView;

    closed spec fn view(&self) -> UnpackView {
        UnpackView {
            extracted_files: text::strings(self.files@),
            total_bytes: self.total,
            was_encrypted: self.encrypted,
        }
    }
}

impl Extraction {
    /// Nothing yet.
    pub fn new() -> (r: Self)
        ensures
            r@ == (UnpackView {
                extracted_files: Seq::empty(),
                total_bytes: 0,
                was_encrypted: false,
            }),
    {
        let r = Extraction { files: Vec::new(), total: 0, encrypted: false };
        assert(r@.extracted_files =~= Seq::empty());
        r
    }

    /// Notes that an entry is there, before it is extracted.
    pub fn entry(&mut self, encrypted: bool)
        ensures
            final(self)@ == (UnpackView {
                was_encrypted: old(self)@.was_encrypted || encrypted,
                ..old(self)@
            }),
    {
        if encrypted {
            self.encrypted = true;
        }
    }

    /// Notes that an entry was extracted. The sum of the sizes wraps around.
    pub fn extracted(&mut self, name: String, size: u64)
        ensures
            final(self)@ == (UnpackView {
                extracted_files: old(self)@.extracted_files.push(name@),
                total_bytes: old(self)@.total_bytes.wrapping_add(size),
                ..old(self)@
            }),
    {
        let ghost n = name@;
        self.files.push(name);
        self.total = self.total.wrapping_add(size);
        assert(self@.extracted_files =~= old(self)@.extracted_files.push(n));
    }

    /// What came out.
    pub fn finish(self) -> (r: UnpackReport)
        ensures
            r@ == self@,
    {
        UnpackReport {
            extracted_files: self.files,
            total_bytes: self.total,
            was_encrypted: self.encrypted,
        }
    }

    /// What an error in the middle of an archive means: where the next volume is missing, what
    /// came out so far is the result.
    pub fn stop(self, error: &str) -> (r: Result<UnpackReport, UnpackError>)
        ensures
            match r {
                Ok(v) => text::has_infix(text::lowered(error@), "next volume"@) && v@ == self@,
                Err(e) => !text::has_infix(text::lowered(error@), "next volume"@) && e@
                    == UnpackErrorView::Unrar(error@),
            },
    {
        if is_volume_message(&to_lowercase(error)) {
            Ok(self.finish())
        } else {
            Err(UnpackError::Unrar(error.to_owned()))
        }
    }
}

/// The name of the part `i` of a split archive whose first part is `first`; `None` where that
/// does not end in `.001`.
pub fn split_part_name(first: &str, i: u32) -> (r: Option<String>)
    ensures
        match r {
            Some(n) => text::has_suffix(first@, ".001"@) && n@ == first@.take(first@.len() - 4)
                + "."@ + text::zero_filled(text::decimal(i as nat), 3),
            None => !text::has_suffix(first@, ".001"@),
        },
{
    let cs = chars_of(first);
    if !ends_with(&cs, ".001") {
        return None;
    }
    proof {
        reveal_strlit(".001");
    }
    let base = vstd::slice::slice_subrange(cs.as_slice(), 0, cs.len() - 4);
    assert(base@ == first@.take(first@.len() - 4));
    let mut r = concat(&string_of(base), ".");
    r.append(&to_decimal_filled(i as u64, 3));
    Some(r)
}

/// Dictionary order of names is a ranking.
pub proof fn names_rank()
    ensures
        order::ranks(by_name()),
{
    assert forall|a: Seq<char>, b: Seq<char>| #[trigger] by_name()(a, b) implies !by_name()(
        b,
        a,
    ) by {
        text::text_before_is_total(a, b, a);
    }
    assert forall|a: Seq<char>, b: Seq<char>, c: Seq<char>|
        !#[trigger] by_name()(a, b) && !#[trigger] by_name()(b, c) implies !by_name()(a, c) by {
        text::text_before_is_total(a, b, c);
        text::text_before_is_total(c, b, a);
        text::text_before_is_total(b, c, a);
        text::text_before_is_total(a, c, b);
    }
}

/// An archive is unpacked by how its name ends: a split 7z archive by its first part, and RAR and
/// 7z archives by their extensions. Other parts and other kinds are not supported.
pub proof fn names_tell_the_method(low: Seq<char>, ext: Option<Seq<char>>, low_ext: Seq<char>)
    ensures
        ({
            let r = method(low, ext, low_ext);
            let first = text::has_suffix(low, ".7z.001"@);
            let part = ext is Some && ext->0.len() == 3 && text::all_digits(ext->0) && ext->0
                != "001"@;
            &&& first ==> r == Ok::<UnpackMethod, UnpackErrorView>(UnpackMethod::SplitSevenz)
            &&& !first && part ==> r is Err && r->Err_0 is Unsupported
            &&& !first && !part && low_ext == "rar"@ ==> r == Ok::<UnpackMethod, UnpackErrorView>(
                UnpackMethod::Rar,
            )
            &&& !first && !part && low_ext == "7z"@ ==> r == Ok::<UnpackMethod, UnpackErrorView>(
                UnpackMethod::Sevenz,
            )
            &&& !first && low_ext != "rar"@ && low_ext != "7z"@ ==> r is Err && r->Err_0
                is Unsupported
        }),
{
    reveal_strlit("rar");
    reveal_strlit("7z");
    assert("rar"@.len() == 3);
    assert("7z"@.len() == 2);
}

/// A further volume of a set is named by `.r` and two digits.
pub proof fn volumes_end_in_numbers(h: Seq<char>, a: char, b: char, low: Seq<char>)
    ensures
        is_volume_name(h + seq!['.', 'r', a, b]) <==> ('0' as u32 <= a as u32 <= '9' as u32
            && '0' as u32 <= b as u32 <= '9' as u32),
        is_volume_name(low) ==> low.len() >= 4 && low[low.len() - 4] == '.' && low[low.len() - 3]
            == 'r',
{
    let s = h + seq!['.', 'r', a, b];
    let n = s.len() as int;
    assert(s[n - 1] == b && s[n - 2] == a && s[n - 3] == 'r' && s[n - 4] == '.');
}

/// A made-up name of a RAR file has three digits between dots before `rar`.
pub proof fn made_up_names_have_numbers(h: Seq<char>, d: Seq<char>)
    requires
        !d.contains('.'),
    ensures
        is_generic_rar(h + seq!['.'] + d + ".rar"@) <==> d.len() == 3 && text::all_digits(d),
        !is_generic_rar(d + ".rar"@),
{
    reveal_strlit(".rar");
    let s = h + seq!['.'] + d + ".rar"@;
    let stem = h + seq!['.'] + d;
    text::affixes_are_pieces(s, ".rar"@, stem);
    assert(s.take(s.len() - 4) =~= stem);
    text::last_index_before(h, '.', d);
    assert(stem.skip((h.len() + 1) as int) =~= d);
    let t = d + ".rar"@;
    assert(t.take(t.len() - 4) =~= d);
    lemma_no_dot(d);
}

proof fn lemma_no_dot(s: Seq<char>)
    requires
        !s.contains('.'),
    ensures
        text::last_index(s, '.') is None,
    decreases s.len(),
{
    if s.len() > 0 {
        assert(s[s.len() - 1] != '.');
        assert forall|i: int| 0 <= i < s.len() - 1 implies s.drop_last()[i] != '.' by {
            assert(s.drop_last()[i] == s[i]);
        }
        lemma_no_dot(s.drop_last());
    }
}

/// The main volume of a set is the first that is marked as the first, or the first of all.
pub proof fn first_marked_volume_is_main(volumes: Seq<(Seq<char>, bool)>, i: int)
    requires
        volumes.len() > 0,
    ensures
        0 <= main_volume(volumes) < volumes.len(),
        0 <= i < volumes.len() && volumes[i].1 ==> volumes[main_volume(volumes)].1
            && main_volume(volumes) <= i,
        (forall|j: int| 0 <= j < volumes.len() ==> !(#[trigger] volumes[j]).1) ==> main_volume(
            volumes,
        ) == 0,
{
    lemma_first_marked(volumes, i);
}

proof fn lemma_first_marked(volumes: Seq<(Seq<char>, bool)>, i: int)
    ensures
        first_marked(volumes) <= volumes.len(),
        first_marked(volumes) < volumes.len() ==> volumes[first_marked(volumes) as int].1,
        0 <= i < volumes.len() && volumes[i].1 ==> first_marked(volumes) <= i,
    decreases volumes.len(),
{
    if volumes.len() > 0 && !volumes[0].1 {
        let t = volumes.skip(1);
        lemma_first_marked(t, i - 1);
        if 0 < i < volumes.len() {
            assert(t[i - 1] == volumes[i]);
        }
        if first_marked(t) < t.len() {
            assert(t[first_marked(t) as int] == volumes[first_marked(t) as int + 1]);
        }
    }
}

/// A stem is made safe; one of white space alone is replaced by a fixed one.
pub proof fn stems_are_safe(stem: Seq<char>)
    ensures
        text::trimmed(stem).len() > 0 ==> volume_stem(stem) == engine::sanitized(stem),
        text::trimmed(stem).len() == 0 ==> volume_stem(stem) == "release"@,
{
}

/// Volumes are numbered from zero in their order; the main one, and those that have the name of a
/// volume, take no number.
pub proof fn volumes_are_numbered_in_order(volumes: Seq<(Seq<char>, bool)>, main: int, i: int)
    requires
        0 <= i,
    ensures
        numbered_before(volumes, main, 0) == 0,
        numbered_before(volumes, main, i + 1) == numbered_before(volumes, main, i) + (if i != main
            && !is_volume_name(text::lowered(volumes[i].0)) {
            1nat
        } else {
            0
        }),
{
}

/// Of a set of volumes the main one becomes the stem with `.rar`, and each that is not the main one
/// and has no name of a volume becomes the stem with `.r` and its number, in at least two digits.
/// A volume that has its name already is left alone, and nothing else is renamed.
pub proof fn volumes_get_their_names(
    volumes: Seq<(Seq<char>, bool)>,
    stem: Seq<char>,
    from: Seq<char>,
    to: Seq<char>,
)
    requires
        volumes.len() > 0,
    ensures
        renames(volumes, stem).contains((from, to)) <==> from != to && exists|i: int|
            0 <= i < volumes.len() && (#[trigger] volumes[i]).0 == from && if i == main_volume(
                volumes,
            ) {
                to == stem + ".rar"@
            } else {
                !is_volume_name(text::lowered(from)) && to == stem + ".r"@ + text::zero_filled(
                    text::decimal(numbered_before(volumes, main_volume(volumes), i)),
                    2,
                )
            },
{
    let main = main_volume(volumes);
    lemma_first_marked(volumes, 0);
    let n = volumes.len() as int;
    let head = if volumes[main].0 != stem + ".rar"@ {
        seq![(volumes[main].0, stem + ".rar"@)]
    } else {
        Seq::empty()
    };
    let tail = renames_before(volumes, main, stem, n);
    let all = renames(volumes, stem);
    assert(all == head + tail);
    lemma_renames_before(volumes, main, stem, n, from, to);
    if all.contains((from, to)) {
        let k = choose|k: int| 0 <= k < all.len() && all[k] == (from, to);
        if k < head.len() {
            assert(head[k] == (from, to));
            assert(volumes[main].0 == from);
        } else {
            assert(tail[k - head.len()] == (from, to));
        }
    }
    if tail.contains((from, to)) {
        let k = choose|k: int| 0 <= k < tail.len() && tail[k] == (from, to);
        assert(all[head.len() + k] == (from, to));
    }
    if from == volumes[main].0 && to == stem + ".rar"@ && from != to {
        assert(head[0] == (from, to));
        assert(all[0] == (from, to));
    }
}

proof fn lemma_renames_before(
    volumes: Seq<(Seq<char>, bool)>,
    main: int,
    stem: Seq<char>,
    n: int,
    from: Seq<char>,
    to: Seq<char>,
)
    requires
        0 <= n <= volumes.len(),
    ensures
        renames_before(volumes, main, stem, n).contains((from, to)) <==> from != to && exists|i: int|
            0 <= i < n && i != main && (#[trigger] volumes[i]).0 == from && !is_volume_name(
                text::lowered(from),
            ) && to == volume_name(stem, numbered_before(volumes, main, i)),
    decreases n,
{
    let r = renames_before(volumes, main, stem, n);
    if n > 0 {
        let before = renames_before(volumes, main, stem, n - 1);
        lemma_renames_before(volumes, main, stem, n - 1, from, to);
        let wanted = wanted_name(volumes, main, stem, n - 1);
        let adds = n - 1 != main && wanted != volumes[n - 1].0;
        if adds {
            assert(r == before.push((volumes[n - 1].0, wanted)));
            assert(r[before.len() as int] == (volumes[n - 1].0, wanted));
        }
        if before.contains((from, to)) {
            let k = choose|k: int| 0 <= k < before.len() && before[k] == (from, to);
            assert(r[k] == (from, to));
        }
        if r.contains((from, to)) && !before.contains((from, to)) {
            let k = choose|k: int| 0 <= k < r.len() && r[k] == (from, to);
            if k < before.len() {
                assert(before[k] == r[k]);
            }
            assert(volumes[n - 1].0 == from);
        }
    }
}

/// An error in words tells what failed, and ends in its message.
pub proof fn errors_tell_their_messages(m: Seq<char>)
    ensures
        UnpackErrorView::Unrar(m).words() == "unrar error: "@ + m,
        UnpackErrorView::Sevenz(m).words() == "7z error: "@ + m,
        UnpackErrorView::Io(m).words() == "I/O error: "@ + m,
        UnpackErrorView::Unsupported(m).words() == "unsupported archive format: "@ + m,
{
}

/// The volumes of a set are the files that are part of one, in their order; a file that stands
/// alone is none.
pub proof fn single_files_are_no_volumes(classified: Seq<(String, VolumeKind)>, name: String)
    ensures
        volumes_in(Seq::empty()) == Seq::<(Seq<char>, bool)>::empty(),
        volumes_in(classified.push((name, VolumeKind::First))) == volumes_in(classified).push(
            (name@, true),
        ),
        volumes_in(classified.push((name, VolumeKind::Subsequent))) == volumes_in(classified).push(
            (name@, false),
        ),
        volumes_in(classified.push((name, VolumeKind::Single))) == volumes_in(classified),
{
    assert(classified.push((name, VolumeKind::First)).drop_last() =~= classified);
    assert(classified.push((name, VolumeKind::Subsequent)).drop_last() =~= classified);
    assert(classified.push((name, VolumeKind::Single)).drop_last() =~= classified);
}

/// An extension in lower case is what stands behind the last dot; a name without a dot has an
/// empty one.
pub proof fn extensions_are_lowered(head: Seq<char>, ext: Seq<char>)
    requires
        head.len() > 0,
        ext.len() > 0,
        !ext.contains('.'),
    ensures
        low_extension(head + seq!['.'] + ext) == text::lowered(ext),
        low_extension(ext) == Seq::<char>::empty(),
{
    text::extension_follows_last_dot(head, ext);
    let s = head + seq!['.'] + ext;
    assert(s[s.len() - 1] == ext[ext.len() - 1]);
    if s == seq!['.', '.'] {
        assert(ext.len() == 1);
        assert(ext[0] == '.');
    }
}

/// A stem gets underscores behind it, no more than it takes until none of the new names is that of
/// a file which is there.
pub proof fn stems_get_as_few_underscores_as_needed(
    volumes: Seq<(Seq<char>, bool)>,
    stem: Seq<char>,
    present: Seq<Seq<char>>,
) -> (k: nat)
    ensures
        chosen_stem(volumes, stem, present) == underscored(volume_stem(stem), k),
        forall|m: nat|
            m < k ==> is_blocked(volumes, #[trigger] underscored(volume_stem(stem), m), present),
{
    lemma_underscores(volumes, volume_stem(stem), present, longest(present))
}

/// A text with `n` underscores behind it.
pub open spec fn underscored(stem: Seq<char>, n: nat) -> Seq<char> {
    stem + Seq::new(n, |i: int| '_')
}

proof fn lemma_underscores(
    volumes: Seq<(Seq<char>, bool)>,
    stem: Seq<char>,
    present: Seq<Seq<char>>,
    most: nat,
) -> (k: nat)
    ensures
        free_stem(volumes, stem, present, most) == underscored(stem, k),
        forall|m: nat| m < k ==> is_blocked(volumes, #[trigger] underscored(stem, m), present),
    decreases most,
{
    if most > 0 && is_blocked(volumes, stem, present) {
        let next = stem.push('_');
        let k = lemma_underscores(volumes, next, present, (most - 1) as nat);
        assert(underscored(next, k) =~= underscored(stem, k + 1));
        assert forall|m: nat| m < k + 1 implies is_blocked(
            volumes,
            #[trigger] underscored(stem, m),
            present,
        ) by {
            if m == 0 {
                assert(underscored(stem, m) =~= stem);
            } else {
                assert(underscored(stem, m) =~= underscored(next, (m - 1) as nat));
            }
        }
        k + 1
    } else {
        assert(underscored(stem, 0) =~= stem);
        0
    }
}

/// A stem is blocked if one of the files that get a new name by it would get that of a file which
/// is there.
pub proof fn present_names_block(
    volumes: Seq<(Seq<char>, bool)>,
    stem: Seq<char>,
    present: Seq<Seq<char>>,
    from: Seq<char>,
    to: Seq<char>,
)
    ensures
        renames(volumes, stem).contains((from, to)) && present.contains(to) ==> is_blocked(
            volumes,
            stem,
            present,
        ),
        renames(volumes, stem).len() == 0 || present.len() == 0 ==> !is_blocked(
            volumes,
            stem,
            present,
        ),
{
}

} // verus!
