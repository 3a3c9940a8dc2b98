use vstd::prelude::*;
use vstd::string::StringExecFns;
use std::path::PathBuf;
use crate::record::chars_of;
use crate::text::{decimal, decimal_text};
use crate::txt_converter::CrcStats;

verus! {

/// What a file of the input directory is converted into.
#[derive(Debug, Clone, Copy, PartialEq, Eq, Structural)]
pub enum FileKind {
    /// A recorded text file, converted into JSON.
    Txt,
    /// An MPEG transport stream, remuxed into MP4.
    Ts,
}

impl FileKind {
    pub open spec fn output_extension_text(self) -> Seq<char> {
        match self {
            FileKind::Txt => "json"@,
            FileKind::Ts => "mp4"@,
        }
    }

    /// The extension of the converted file: `json` for text, `mp4` for
    /// streams.
    pub fn output_extension(&self) -> (ext: &'static str)
        ensures
            ext@ == self.output_extension_text(),
    {
        match self {
            FileKind::Txt => "json",
            FileKind::Ts => "mp4",
        }
    }
}

/// The position of the last dot among the first `j` characters, or -1.
pub open spec fn last_dot_before(name: Seq<char>, j: int) -> int
    decreases j,
{
    if j <= 0 || j > name.len() {
        -1
    } else if name[j - 1] == '.' {
        j - 1
    } else {
        last_dot_before(name, j - 1)
    }
}

/// The extension of a file name as `Path::extension` gives it: the part
/// after the last dot, unless that dot is the first character; `..` has
/// none.
pub open spec fn extension_of(name: Seq<char>) -> Option<Seq<char>> {
    let d = last_dot_before(name, name.len() as int);
    if name == seq!['.', '.'] || d <= 0 {
        None
    } else {
        Some(name.skip(d + 1))
    }
}

/// ASCII upper case letters to lower case; other characters unchanged.
pub open spec fn ascii_lower(c: char) -> char {
    if 65 <= (c as u32) && (c as u32) <= 90 {
        ((c as u32) + 32) as char
    } else {
        c
    }
}

/// `s` equals the lower-case `lit` when ASCII letters are compared without
/// regard to case.
pub open spec fn eq_ignore_ascii_case(s: Seq<char>, lit: Seq<char>) -> bool {
    s.len() == lit.len() && forall|i: int| 0 <= i < s.len() ==> ascii_lower(#[trigger] s[i]) == lit[i]
}

/// The kind of a file, by its extension in lower case: `txt` or `ts`;
/// other files are not converted. (`str::to_lowercase` yields `txt` or
/// `ts` exactly for the spellings of those in any ASCII case: no other
/// character lowercases to `t`, `x` or `s`.)
pub open spec fn file_kind(name: Seq<char>) -> Option<FileKind> {
    match extension_of(name) {
        None => None,
        Some(ext) => if eq_ignore_ascii_case(ext, seq!['t', 'x', 't']) {
            Some(FileKind::Txt)
        } else if eq_ignore_ascii_case(ext, seq!['t', 's']) {
            Some(FileKind::Ts)
        } else {
            None
        },
    }
}

fn eq_ignore_ascii_case_at(s: &Vec<char>, from: usize, lit: &[char]) -> (b: bool)
    requires
        from <= s.len(),
    ensures
        b == eq_ignore_ascii_case(s@.skip(from as int), lit@),
{
    let ghost t = s@.skip(from as int);
    if s.len() - from != lit.len() {
        return false;
    }
    let mut k: usize = 0;
    while k < lit.len()
        invariant
            t == s@.skip(from as int),
            t.len() == lit.len(),
            from + lit.len() == s.len(),
            k <= lit.len(),
            forall|m: int| 0 <= m < k ==> ascii_lower(#[trigger] t[m]) == lit@[m],
        decreases lit.len() - k,
    {
        let c = s[from + k];
        let v = c as u32;
        assert(t[k as int] == c);
        let lower = if 65 <= v && v <= 90 {
            ((v + 32) as u8) as char
        } else {
            c
        };
        assert(lower == ascii_lower(c)) by {
            if 65 <= v && v <= 90 {
                assert(((v + 32) as u8) as char == ((v + 32) as u32) as char);
            }
        }
        if lower != lit[k] {
            return false;
        }
        k = k + 1;
    }
    true
}

/// The kind of the file named `name`, if it is converted.
pub fn file_kind_of(name: &str) -> (kind: Option<FileKind>)
    ensures
        kind == file_kind(name@),
{
    let s = chars_of(name);
    let mut j = s.len();
    while j > 0 && s[j - 1] != '.'
        invariant
            j <= s.len(),
            last_dot_before(s@, s.len() as int) == last_dot_before(s@, j as int),
        decreases j,
    {
        j = j - 1;
    }
    if j <= 1 || (s.len() == 2 && s[0] == '.' && s[1] == '.') {
        proof {
            if s.len() == 2 && s[0] == '.' && s[1] == '.' {
                assert(s@ =~= seq!['.', '.']);
            }
        }
        return None;
    }
    assert(s@ != seq!['.', '.']) by {
        if s@ =~= seq!['.', '.'] {
            assert(s@[0] == '.' && s@[1] == '.');
        }
    }
    let txt = ['t', 'x', 't'];
    let ts = ['t', 's'];
    assert(txt@ =~= seq!['t', 'x', 't']);
    assert(ts@ =~= seq!['t', 's']);
    if eq_ignore_ascii_case_at(&s, j, &txt) {
        Some(FileKind::Txt)
    } else if eq_ignore_ascii_case_at(&s, j, &ts) {
        Some(FileKind::Ts)
    } else {
        None
    }
}


/// The name of the directory that receives the converted files, beside the
/// input directory `dir_name`: the input's name followed by `_result`.
pub fn result_dir_name(dir_name: &str) -> (name: String)
    ensures
        name@ == dir_name@ + "_result"@,
{
    let mut name = String::from_str(dir_name);
    name.append("_result");
    name
}

/* The input directory */

/// An entry of a directory, with the `path` by which the caller reaches it.
pub enum Entry<P> {
    /// A file, with its name.
    File { name: String, path: P },
    /// A subdirectory, with its name and what reading it gave.
    Dir { name: String, path: P, listing: Listing<P> },
}

/// What reading a directory gave: its entries in the order they were
/// read, or the error that reading it failed with.
pub enum Listing<P> {
    Entries(Vec<Entry<P>>),
    Unreadable(String),
}

/// One step of the conversion of a directory: a file converted, or a
/// directory that could not be read. A converted file is written at `dst`,
/// the path (as its components) below the output directory.
pub enum Step<P> {
    Convert { kind: FileKind, src: P, dst: Vec<String> },
    Unreadable { dir: P, error: String },
}

/// A step, its texts as character sequences.
pub enum StepView<P> {
    Convert { kind: FileKind, src: P, dst: Seq<Seq<char>> },
    Unreadable { dir: P, error: Seq<char> },
}

/// Names as character sequences.
pub open spec fn names_view(names: Seq<String>) -> Seq<Seq<char>> {
    names.map_values(|n: String| n@)
}

impl<P> View for Step<P> {
    type V = StepView<P>;

    open spec fn view(&self) -> StepView<P> {
        match self {
            Step::Convert { kind, src, dst } => StepView::Convert {
                kind: *kind,
                src: *src,
                dst: names_view(dst@),
            },
            Step::Unreadable { dir, error } => StepView::Unreadable { dir: *dir, error: error@ },
        }
    }
}

/// The steps as views.
pub open spec fn steps_view<P>(steps: Seq<Step<P>>) -> Seq<StepView<P>> {
    steps.map_values(|s: Step<P>| s@)
}

/// The name of the converted file: the file's name with its extension
/// replaced by that of `kind` (`Path::with_extension`).
pub open spec fn output_file_name(name: Seq<char>, kind: FileKind) -> Seq<char> {
    name.take(last_dot_before(name, name.len() as int)) + seq!['.'] + kind.output_extension_text()
}

/// The number of files of a listing that are converted.
pub open spec fn convertible_count<P>(listing: Listing<P>) -> nat
    decreases listing, 0nat,
{
    match listing {
        Listing::Unreadable(_) => 0,
        Listing::Entries(v) => entries_convertible_count(v@),
    }
}

pub open spec fn entries_convertible_count<P>(entries: Seq<Entry<P>>) -> nat
    decreases entries, entries.len(),
{
    if entries.len() == 0 {
        0
    } else {
        let first = match entries[0] {
            Entry::File { name, path } => if file_kind(name@) is Some {
                1nat
            } else {
                0nat
            },
            Entry::Dir { name, path, listing } => convertible_count(listing),
        };
        first + entries_convertible_count(entries.drop_first())
    }
}


/// The steps of the conversion of the directory `dir`, which lies at
/// `prefix` below the input directory and which reading gave `listing`:
/// the entries in the order they were read, each subdirectory in full
/// before the entries after it. A file is written at the same place below
/// the output directory, under its [`output_file_name`].
pub open spec fn listing_steps<P>(dir: P, prefix: Seq<Seq<char>>, listing: Listing<P>) -> Seq<
    StepView<P>,
>
    decreases listing, 0nat,
{
    match listing {
        Listing::Unreadable(error) => seq![StepView::Unreadable { dir: dir, error: error@ }],
        Listing::Entries(v) => entries_steps(prefix, v@),
    }
}

pub open spec fn entry_steps<P>(prefix: Seq<Seq<char>>, entry: Entry<P>) -> Seq<StepView<P>>
    decreases entry, 1nat,
{
    match entry {
        Entry::File { name, path } => match file_kind(name@) {
            Some(kind) => seq![
                StepView::Convert {
                    kind: kind,
                    src: path,
                    dst: prefix.push(output_file_name(name@, kind)),
                },
            ],
            None => Seq::empty(),
        },
        Entry::Dir { name, path, listing } => listing_steps(path, prefix.push(name@), listing),
    }
}

pub open spec fn entries_steps<P>(prefix: Seq<Seq<char>>, entries: Seq<Entry<P>>) -> Seq<
    StepView<P>,
>
    decreases entries, entries.len(),
{
    if entries.len() == 0 {
        Seq::empty()
    } else {
        entry_steps(prefix, entries[0]) + entries_steps(prefix, entries.drop_first())
    }
}

/// The number of files that the steps convert.
pub open spec fn converted_count<P>(steps: Seq<StepView<P>>) -> nat
    decreases steps.len(),
{
    if steps.len() == 0 {
        0
    } else {
        (if steps[0] is Convert {
            1nat
        } else {
            0nat
        }) + converted_count(steps.drop_first())
    }
}

/// Count convertible files (txt + ts) recursively: the files of `listing`
/// and of its subdirectories whose kind is [`FileKind::Txt`] or
/// [`FileKind::Ts`]. Directories that could not be read count nothing.
pub fn count_files<P>(listing: &Listing<P>) -> (count: usize)
    requires
        convertible_count(*listing) <= usize::MAX,
    ensures
        count == convertible_count(*listing),
    decreases listing,
{
    match listing {
        Listing::Unreadable(_) => 0,
        Listing::Entries(v) => {
            let mut count: usize = 0;
            let mut i: usize = 0;
            assert(v@.skip(0) =~= v@);
            while i < v.len()
                invariant
                    *listing == Listing::Entries(*v),
                    i <= v.len(),
                    count + entries_convertible_count(v@.skip(i as int)) == entries_convertible_count(v@),
                    entries_convertible_count(v@) <= usize::MAX,
                decreases v.len() - i,
            {
                let ghost rest = v@.skip(i as int);
                assert(rest.drop_first() =~= v@.skip(i + 1));
                assert(rest[0] == v@[i as int]);
                let here: usize = match &v[i] {
                    Entry::File { name, path: _ } => {
                        if file_kind_of(name.as_str()).is_some() {
                            1
                        } else {
                            0
                        }
                    },
                    Entry::Dir { name: _, path: _, listing: sub } => {
                        proof {
                            assert(decreases_to!(*listing => (*listing)->Entries_0));
                            assert((*listing)->Entries_0 == *v);
                            assert(decreases_to!(*v => v@));
                            assert(decreases_to!(v@ => v@[i as int]));
                            assert(decreases_to!(v@[i as int] => v@[i as int]->Dir_listing));
                            assert(v@[i as int]->Dir_listing == *sub);
                        }
                        count_files(sub)
                    },
                };
                count = count + here;
                i = i + 1;
            }
            assert(v@.skip(v.len() as int) =~= Seq::<Entry<P>>::empty());
            count
        },
    }
}


/// A copy of a list of names.
fn copy_names(names: &Vec<String>) -> (copy: Vec<String>)
    ensures
        names_view(copy@) == names_view(names@),
{
    let mut copy: Vec<String> = Vec::new();
    let mut i: usize = 0;
    while i < names.len()
        invariant
            i <= names.len(),
            copy@.len() == i,
            forall|m: int| 0 <= m < i ==> (#[trigger] copy@[m])@ == names@[m]@,
        decreases names.len() - i,
    {
        copy.push(names[i].clone());
        i = i + 1;
    }
    assert(names_view(copy@) =~= names_view(names@));
    copy
}

/// The name of the file that `name` is converted into: its extension
/// replaced by that of `kind`.
pub fn output_file_name_of(name: &str, kind: FileKind) -> (out: String)
    requires
        file_kind(name@) is Some,
    ensures
        out@ == output_file_name(name@, kind),
{
    let s = chars_of(name);
    let mut j = s.len();
    while j > 0 && s[j - 1] != '.'
        invariant
            j <= s.len(),
            last_dot_before(s@, s.len() as int) == last_dot_before(s@, j as int),
        decreases j,
    {
        j = j - 1;
    }
    // the stem ends at the last dot, which is not the first character
    let stem_end = j - 1;
    let mut out = String::new();
    let mut k: usize = 0;
    while k < stem_end
        invariant
            stem_end <= s.len(),
            k <= stem_end,
            out@ == s@.take(k as int),
        decreases stem_end - k,
    {
        out.push(s[k]);
        assert(out@ =~= s@.take(k + 1));
        k = k + 1;
    }
    out.push('.');
    out.append(kind.output_extension());
    assert(out@ =~= output_file_name(name@, kind));
    out
}

fn push_listing_steps<P>(
    dir: P,
    prefix: &Vec<String>,
    listing: Listing<P>,
    steps: &mut Vec<Step<P>>,
)
    ensures
        steps_view(final(steps)@) == steps_view(old(steps)@) + listing_steps(
            dir,
            names_view(prefix@),
            listing,
        ),
    decreases listing,
{
    broadcast use vstd::std_specs::vec::axiom_spec_into_iter;

    let ghost start = steps_view(steps@);
    let ghost whole = listing;
    let ghost pre = names_view(prefix@);
    match listing {
        Listing::Unreadable(error) => {
            steps.push(Step::Unreadable { dir, error });
            assert(steps_view(steps@) =~= start + listing_steps(dir, pre, whole));
        },
        Listing::Entries(v) => {
            let ghost all = v@;
            assert(all.skip(0) =~= all);
            #[verifier::loop_isolation(false)]
            for e in it: v.into_iter()
                invariant
                    it.seq() == all,
                    whole == Listing::Entries(v),
                    all == v@,
                    pre == names_view(prefix@),
                    steps_view(steps@) + entries_steps(pre, all.skip(it.index() as int)) == start
                        + entries_steps(pre, all),
            {
                let ghost k = it.index() as int;
                let ghost rest = all.skip(k);
                assert(rest.drop_first() =~= all.skip(k + 1));
                assert(rest[0] == all[k]);
                let ghost before = steps_view(steps@);
                let ghost entry = e;
                match e {
                    Entry::File { name, path } => {
                        match file_kind_of(name.as_str()) {
                            Some(kind) => {
                                let mut dst = copy_names(prefix);
                                let file = output_file_name_of(name.as_str(), kind);
                                dst.push(file);
                                assert(names_view(dst@) =~= pre.push(output_file_name(name@, kind)));
                                steps.push(Step::Convert { kind, src: path, dst });
                            },
                            None => {},
                        }
                    },
                    Entry::Dir { name, path, listing: sub } => {
                        proof {
                            assert(entry == all[k]);
                            assert(decreases_to!(whole => whole->Entries_0));
                            assert(decreases_to!(v => v@));
                            assert(decreases_to!(all => all[k]));
                            assert(decreases_to!(entry => entry->Dir_listing));
                            assert(entry->Dir_listing == sub);
                            assert(decreases_to!(whole => sub));
                        }
                        let mut inner = copy_names(prefix);
                        inner.push(name);
                        assert(names_view(inner@) =~= pre.push(entry->Dir_name@));
                        push_listing_steps(path, &inner, sub, steps);
                    },
                }
                proof {
                    let first = entry_steps(pre, entry);
                    assert(steps_view(steps@) =~= before + first);
                    assert(entries_steps(pre, rest) == first + entries_steps(pre, all.skip(k + 1)));
                    assert(steps_view(steps@) + entries_steps(pre, all.skip(k + 1)) =~= before
                        + entries_steps(pre, rest));
                }
            }
            assert(all.skip(all.len() as int) =~= Seq::<Entry<P>>::empty());
            assert(steps_view(steps@) =~= start + listing_steps(dir, pre, whole));
        },
    }
}

/// The conversion of an input directory, step by step in the order in
/// which the conversions run and report: every file of the directory and
/// of its subdirectories whose kind is [`FileKind::Txt`] or
/// [`FileKind::Ts`], each subdirectory in full before the entries read
/// after it, and for each directory that could not be read the error that
/// reading it gave. Each converted file is written below the output
/// directory at the path of the source below the input directory, under
/// its [`output_file_name`].
pub fn convert_directory_incremental<P>(dir: P, listing: Listing<P>) -> (steps: Vec<Step<P>>)
    ensures
        steps_view(steps@) == listing_steps(dir, Seq::empty(), listing),
{
    let mut steps: Vec<Step<P>> = Vec::new();
    let prefix: Vec<String> = Vec::new();
    assert(names_view(prefix@) =~= Seq::<Seq<char>>::empty());
    push_listing_steps(dir, &prefix, listing, &mut steps);
    assert(steps_view(steps@) =~= listing_steps(dir, Seq::empty(), listing));
    steps
}

proof fn lemma_converted_count_concat<P>(a: Seq<StepView<P>>, b: Seq<StepView<P>>)
    ensures
        converted_count(a + b) == converted_count(a) + converted_count(b),
    decreases a.len(),
{
    if a.len() == 0 {
        assert(a + b =~= b);
    } else {
        lemma_converted_count_concat(a.drop_first(), b);
        assert((a + b).drop_first() =~= a.drop_first() + b);
        assert((a + b)[0] == a[0]);
    }
}

/// The files that [`count_files`] counts are exactly the files that
/// [`convert_directory_incremental`] converts: a conversion is complete once
/// it has converted that many files.
pub proof fn lemma_count_files_matches_steps<P>(
    dir: P,
    prefix: Seq<Seq<char>>,
    listing: Listing<P>,
)
    ensures
        converted_count(listing_steps(dir, prefix, listing)) == convertible_count(listing),
    decreases listing, 0nat,
{
    match listing {
        Listing::Unreadable(error) => {
            let steps = listing_steps(dir, prefix, listing);
            assert(steps.drop_first() =~= Seq::<StepView<P>>::empty());
            assert(converted_count(Seq::<StepView<P>>::empty()) == 0);
            assert(!(steps[0] is Convert));
        },
        Listing::Entries(v) => {
            lemma_entries_count_matches_steps(prefix, v@);
        },
    }
}

proof fn lemma_entries_count_matches_steps<P>(prefix: Seq<Seq<char>>, entries: Seq<Entry<P>>)
    ensures
        converted_count(entries_steps(prefix, entries)) == entries_convertible_count(entries),
    decreases entries, entries.len(),
{
    if entries.len() > 0 {
        lemma_entries_count_matches_steps(prefix, entries.drop_first());
        let first = entry_steps(prefix, entries[0]);
        lemma_converted_count_concat(first, entries_steps(prefix, entries.drop_first()));
        assert(converted_count(Seq::<StepView<P>>::empty()) == 0);
        match entries[0] {
            Entry::File { name, path } => {
                if file_kind(name@) is Some {
                    assert(first.drop_first() =~= Seq::<StepView<P>>::empty());
                    assert(first[0] is Convert);
                    assert(converted_count(first) == 1);
                } else {
                    assert(converted_count(first) == 0);
                }
            },
            Entry::Dir { name, path, listing } => {
                assert(decreases_to!(entries => entries[0]));
                lemma_count_files_matches_steps(path, prefix.push(name@), listing);
            },
        }
    }
}

/* Where each file lies */

/// The entry that `route` reaches in `listing`, with the names of the
/// directories that it passes through on the way: `route[0]` picks an entry
/// of the listing, and each further index an entry of the subdirectory
/// picked before it.
pub open spec fn listing_route<P>(listing: Listing<P>, route: Seq<int>) -> Option<
    (Seq<Seq<char>>, Entry<P>),
>
    decreases route.len(), 1nat,
{
    match listing {
        Listing::Unreadable(_) => None,
        Listing::Entries(v) => entries_route(v@, route),
    }
}

/// The entry that `route` reaches among `entries`, as [`listing_route`].
pub open spec fn entries_route<P>(entries: Seq<Entry<P>>, route: Seq<int>) -> Option<
    (Seq<Seq<char>>, Entry<P>),
>
    decreases route.len(), 0nat,
{
    if route.len() == 0 || !(0 <= route[0] < entries.len()) {
        None
    } else if route.len() == 1 {
        Some((Seq::empty(), entries[route[0]]))
    } else {
        match entries[route[0]] {
            Entry::File { .. } => None,
            Entry::Dir { name, path, listing } => match listing_route(listing, route.drop_first()) {
                Some((dirs, entry)) => Some((seq![name@] + dirs, entry)),
                None => None,
            },
        }
    }
}

/// The route to an entry past the first of `entries`, from that among the
/// rest.
proof fn lemma_entries_route_shift<P>(entries: Seq<Entry<P>>, route: Seq<int>)
    requires
        entries.len() > 0,
        route.len() > 0,
        0 <= route[0],
    ensures
        entries_route(entries, seq![route[0] + 1] + route.drop_first()) == entries_route(
            entries.drop_first(),
            route,
        ),
{
    let moved = seq![route[0] + 1] + route.drop_first();
    assert(moved.drop_first() =~= route.drop_first());
    assert(moved[0] == route[0] + 1);
    assert(moved.len() == route.len());
    if route[0] < entries.len() - 1 {
        assert(entries[route[0] + 1] == entries.drop_first()[route[0]]);
    }
}

/// Where a step of `listing_steps(dir, prefix, listing)` converts a file,
/// the route to that file: the file's path is the step's source, and the
/// step writes below `prefix` at the names of the directories on the route,
/// under the file's [`output_file_name`].
proof fn lemma_listing_step_route<P>(
    dir: P,
    prefix: Seq<Seq<char>>,
    listing: Listing<P>,
    j: int,
) -> (route: Seq<int>)
    requires
        0 <= j < listing_steps(dir, prefix, listing).len(),
        listing_steps(dir, prefix, listing)[j] is Convert,
    ensures
        ({
            let step = listing_steps(dir, prefix, listing)[j];
            &&& listing_route(listing, route) matches Some((dirs, Entry::File { name, path }))
            &&& file_kind(name@) == Some(step->Convert_kind)
            &&& path == step->Convert_src
            &&& step->Convert_dst == prefix + dirs.push(
                output_file_name(name@, step->Convert_kind),
            )
        }),
    decreases listing, 0nat,
{
    match listing {
        Listing::Unreadable(_) => {
            assert(false);
            Seq::empty()
        },
        Listing::Entries(v) => lemma_entries_step_route(prefix, v@, j),
    }
}

proof fn lemma_entries_step_route<P>(prefix: Seq<Seq<char>>, entries: Seq<Entry<P>>, j: int) -> (route: Seq<int>)
    requires
        0 <= j < entries_steps(prefix, entries).len(),
        entries_steps(prefix, entries)[j] is Convert,
    ensures
        ({
            let step = entries_steps(prefix, entries)[j];
            &&& entries_route(entries, route) matches Some((dirs, Entry::File { name, path }))
            &&& file_kind(name@) == Some(step->Convert_kind)
            &&& path == step->Convert_src
            &&& step->Convert_dst == prefix + dirs.push(
                output_file_name(name@, step->Convert_kind),
            )
        }),
    decreases entries, entries.len(),
{
    let first = entry_steps(prefix, entries[0]);
    let rest = entries_steps(prefix, entries.drop_first());
    assert(entries_steps(prefix, entries) == first + rest);
    if j < first.len() {
        assert(entries_steps(prefix, entries)[j] == first[j]);
        match entries[0] {
            Entry::File { name, path } => {
                let route = seq![0int];
                assert(route.drop_first().len() == 0);
                assert(prefix.push(output_file_name(name@, file_kind(name@)->0)) =~= prefix
                    + Seq::<Seq<char>>::empty().push(output_file_name(name@, file_kind(name@)->0)));
                route
            },
            Entry::Dir { name, path, listing } => {
                assert(decreases_to!(entries => entries[0]));
                let inner = lemma_listing_step_route(path, prefix.push(name@), listing, j);
                let route = seq![0int] + inner;
                assert(route.drop_first() =~= inner);
                assert(route[0] == 0);
                let step = first[j];
                let (dirs, e) = listing_route(listing, inner)->0;
                let out = output_file_name(e->File_name@, step->Convert_kind);
                assert(prefix.push(name@) + dirs.push(out) =~= prefix + (seq![name@] + dirs).push(out));
                route
            },
        }
    } else {
        assert(entries_steps(prefix, entries)[j] == rest[j - first.len()]);
        let inner = lemma_entries_step_route(prefix, entries.drop_first(), j - first.len());
        assert(entries_route(entries.drop_first(), inner) is Some);
        assert(0 <= inner[0]);
        lemma_entries_route_shift(entries, inner);
        seq![inner[0] + 1] + inner.drop_first()
    }
}

/// Every converted file is written below the output directory at the place
/// of its source below the input directory: a step that converts a file
/// reached through the subdirectories named `d1, .., dn` writes at
/// `[d1, .., dn, output_file_name(name)]`, and its kind is that of the
/// file's name.
pub proof fn lemma_steps_write_at_source_place<P>(dir: P, listing: Listing<P>, j: int)
    requires
        0 <= j < listing_steps(dir, Seq::empty(), listing).len(),
        listing_steps(dir, Seq::empty(), listing)[j] is Convert,
    ensures
        exists|route: Seq<int>| {
            let step = listing_steps(dir, Seq::empty(), listing)[j];
            &&& #[trigger] listing_route(listing, route) matches Some(
                (dirs, Entry::File { name, path }),
            )
            &&& file_kind(name@) == Some(step->Convert_kind)
            &&& path == step->Convert_src
            &&& step->Convert_dst == dirs.push(output_file_name(name@, step->Convert_kind))
        },
{
    let route = lemma_listing_step_route(dir, Seq::empty(), listing, j);
    let (dirs, e) = listing_route(listing, route)->0;
    let step = listing_steps(dir, Seq::empty(), listing)[j];
    assert(Seq::<Seq<char>>::empty() + dirs.push(output_file_name(e->File_name@, step->Convert_kind))
        =~= dirs.push(output_file_name(e->File_name@, step->Convert_kind)));
}

/// Where `route` reaches a file of a kind that is converted, the index of
/// the step of `listing_steps(dir, prefix, listing)` that converts it.
proof fn lemma_listing_route_step<P>(
    dir: P,
    prefix: Seq<Seq<char>>,
    listing: Listing<P>,
    route: Seq<int>,
) -> (j: int)
    requires
        listing_route(listing, route) matches Some((dirs, Entry::File { name, path })) && file_kind(
            name@,
        ) is Some,
    ensures
        ({
            let (dirs, entry) = listing_route(listing, route)->0;
            let kind = file_kind(entry->File_name@)->0;
            &&& 0 <= j < listing_steps(dir, prefix, listing).len()
            &&& listing_steps(dir, prefix, listing)[j] == StepView::Convert {
                kind: kind,
                src: entry->File_path,
                dst: prefix + dirs.push(output_file_name(entry->File_name@, kind)),
            }
        }),
    decreases listing, 0nat,
{
    match listing {
        Listing::Unreadable(_) => 0,
        Listing::Entries(v) => lemma_entries_route_step(prefix, v@, route),
    }
}

proof fn lemma_entries_route_step<P>(
    prefix: Seq<Seq<char>>,
    entries: Seq<Entry<P>>,
    route: Seq<int>,
) -> (j: int)
    requires
        entries_route(entries, route) matches Some((dirs, Entry::File { name, path })) && file_kind(
            name@,
        ) is Some,
    ensures
        ({
            let (dirs, entry) = entries_route(entries, route)->0;
            let kind = file_kind(entry->File_name@)->0;
            &&& 0 <= j < entries_steps(prefix, entries).len()
            &&& entries_steps(prefix, entries)[j] == StepView::Convert {
                kind: kind,
                src: entry->File_path,
                dst: prefix + dirs.push(output_file_name(entry->File_name@, kind)),
            }
        }),
    decreases entries, entries.len(),
{
    let first = entry_steps(prefix, entries[0]);
    let rest = entries_steps(prefix, entries.drop_first());
    assert(entries_steps(prefix, entries) == first + rest);
    if route[0] == 0 {
        if route.len() == 1 {
            let name = entries[0]->File_name;
            let kind = file_kind(name@)->0;
            assert(prefix.push(output_file_name(name@, kind)) =~= prefix
                + Seq::<Seq<char>>::empty().push(output_file_name(name@, kind)));
            0
        } else {
            match entries[0] {
                Entry::File { .. } => 0,
                Entry::Dir { name, path, listing } => {
                    assert(decreases_to!(entries => entries[0]));
                    let inner = route.drop_first();
                    let j = lemma_listing_route_step(path, prefix.push(name@), listing, inner);
                    let (dirs, e) = listing_route(listing, inner)->0;
                    let out = output_file_name(e->File_name@, file_kind(e->File_name@)->0);
                    assert(prefix.push(name@) + dirs.push(out) =~= prefix + (seq![name@]
                        + dirs).push(out));
                    j
                },
            }
        }
    } else {
        let inner = seq![route[0] - 1] + route.drop_first();
        assert(inner.drop_first() =~= route.drop_first());
        assert(seq![inner[0] + 1] + inner.drop_first() =~= route);
        lemma_entries_route_shift(entries, inner);
        let j = lemma_entries_route_step(prefix, entries.drop_first(), inner);
        first.len() + j
    }
}

/// Every file of the input directory and of its subdirectories whose kind
/// is converted has a step that converts it: the file reached through the
/// subdirectories named `d1, .., dn` is converted from its path into
/// `[d1, .., dn, output_file_name(name)]`.
pub proof fn lemma_every_file_has_step<P>(dir: P, listing: Listing<P>, route: Seq<int>)
    requires
        listing_route(listing, route) matches Some((dirs, Entry::File { name, path })) && file_kind(
            name@,
        ) is Some,
    ensures
        ({
            let (dirs, entry) = listing_route(listing, route)->0;
            let kind = file_kind(entry->File_name@)->0;
            exists|j: int|
                0 <= j < listing_steps(dir, Seq::empty(), listing).len() && #[trigger] listing_steps(
                    dir,
                    Seq::empty(),
                    listing,
                )[j] == StepView::Convert {
                    kind: kind,
                    src: entry->File_path,
                    dst: dirs.push(output_file_name(entry->File_name@, kind)),
                }
        }),
{
    let j = lemma_listing_route_step(dir, Seq::empty(), listing, route);
    let (dirs, entry) = listing_route(listing, route)->0;
    let kind = file_kind(entry->File_name@)->0;
    assert(Seq::<Seq<char>>::empty() + dirs.push(output_file_name(entry->File_name@, kind))
        =~= dirs.push(output_file_name(entry->File_name@, kind)));
}

/// The path of the subdirectory that `route` reaches in `listing`, and the
/// error that reading it gave, where it could not be read.
pub open spec fn unreadable_at<P>(listing: Listing<P>, route: Seq<int>) -> Option<(P, Seq<char>)> {
    match listing_route(listing, route) {
        Some((_, Entry::Dir { name, path, listing: Listing::Unreadable(e) })) => Some((path, e@)),
        _ => None,
    }
}

/// What a step reports of a directory that could not be read: its path and
/// the error.
pub open spec fn reported<P>(step: StepView<P>) -> Option<(P, Seq<char>)> {
    match step {
        StepView::Unreadable { dir, error } => Some((dir, error)),
        _ => None,
    }
}

/// Where a step of `listing_steps(dir, prefix, listing)` reports a
/// directory that could not be read, the route to that directory: the empty
/// route where it is `dir` itself.
proof fn lemma_listing_unreadable_route<P>(
    dir: P,
    prefix: Seq<Seq<char>>,
    listing: Listing<P>,
    j: int,
) -> (route: Seq<int>)
    requires
        0 <= j < listing_steps(dir, prefix, listing).len(),
        reported(listing_steps(dir, prefix, listing)[j]) is Some,
    ensures
        route.len() == 0 ==> (listing is Unreadable && reported(listing_steps(dir, prefix, listing)[j])
            == Some((dir, listing->Unreadable_0@))),
        route.len() > 0 ==> unreadable_at(listing, route) == reported(
            listing_steps(dir, prefix, listing)[j],
        ),
    decreases listing, 0nat,
{
    match listing {
        Listing::Unreadable(_) => Seq::empty(),
        Listing::Entries(v) => lemma_entries_unreadable_route(prefix, v@, j),
    }
}

proof fn lemma_entries_unreadable_route<P>(
    prefix: Seq<Seq<char>>,
    entries: Seq<Entry<P>>,
    j: int,
) -> (route: Seq<int>)
    requires
        0 <= j < entries_steps(prefix, entries).len(),
        reported(entries_steps(prefix, entries)[j]) is Some,
    ensures
        route.len() > 0,
        0 <= route[0],
        entries_route(entries, route) matches Some((_, Entry::Dir { listing: Listing::Unreadable(e), .. }))
            && reported(entries_steps(prefix, entries)[j]) == Some(
            ((entries_route(entries, route)->0).1->Dir_path, e@),
        ),
    decreases entries, entries.len(),
{
    let first = entry_steps(prefix, entries[0]);
    let rest = entries_steps(prefix, entries.drop_first());
    assert(entries_steps(prefix, entries) == first + rest);
    if j < first.len() {
        assert(entries_steps(prefix, entries)[j] == first[j]);
        match entries[0] {
            Entry::File { name, path } => seq![0int],
            Entry::Dir { name, path, listing } => {
                assert(decreases_to!(entries => entries[0]));
                let inner = lemma_listing_unreadable_route(path, prefix.push(name@), listing, j);
                if inner.len() == 0 {
                    seq![0int]
                } else {
                    let route = seq![0int] + inner;
                    assert(route.drop_first() =~= inner);
                    assert(route[0] == 0);
                    route
                }
            },
        }
    } else {
        assert(entries_steps(prefix, entries)[j] == rest[j - first.len()]);
        let inner = lemma_entries_unreadable_route(prefix, entries.drop_first(), j - first.len());
        lemma_entries_route_shift(entries, inner);
        seq![inner[0] + 1] + inner.drop_first()
    }
}

/// Where `route` reaches a subdirectory that could not be read, the index
/// of the step of `listing_steps(dir, prefix, listing)` that reports it.
proof fn lemma_listing_route_unreadable<P>(
    dir: P,
    prefix: Seq<Seq<char>>,
    listing: Listing<P>,
    route: Seq<int>,
) -> (j: int)
    requires
        unreadable_at(listing, route) is Some,
    ensures
        0 <= j < listing_steps(dir, prefix, listing).len(),
        reported(listing_steps(dir, prefix, listing)[j]) == unreadable_at(listing, route),
    decreases listing, 0nat,
{
    match listing {
        Listing::Unreadable(_) => 0,
        Listing::Entries(v) => lemma_entries_route_unreadable(prefix, v@, route),
    }
}

proof fn lemma_entries_route_unreadable<P>(
    prefix: Seq<Seq<char>>,
    entries: Seq<Entry<P>>,
    route: Seq<int>,
) -> (j: int)
    requires
        entries_route(entries, route) matches Some((_, Entry::Dir { listing: Listing::Unreadable(e), .. })),
    ensures
        0 <= j < entries_steps(prefix, entries).len(),
        reported(entries_steps(prefix, entries)[j]) == Some(
            (
                (entries_route(entries, route)->0).1->Dir_path,
                (entries_route(entries, route)->0).1->Dir_listing->Unreadable_0@,
            ),
        ),
    decreases entries, entries.len(),
{
    let first = entry_steps(prefix, entries[0]);
    let rest = entries_steps(prefix, entries.drop_first());
    assert(entries_steps(prefix, entries) == first + rest);
    if route[0] == 0 {
        if route.len() == 1 {
            0
        } else {
            match entries[0] {
                Entry::File { .. } => 0,
                Entry::Dir { name, path, listing } => {
                    assert(decreases_to!(entries => entries[0]));
                    lemma_listing_route_unreadable(path, prefix.push(name@), listing, route.drop_first())
                },
            }
        }
    } else {
        let inner = seq![route[0] - 1] + route.drop_first();
        assert(inner.drop_first() =~= route.drop_first());
        assert(seq![inner[0] + 1] + inner.drop_first() =~= route);
        lemma_entries_route_shift(entries, inner);
        let j = lemma_entries_route_unreadable(prefix, entries.drop_first(), inner);
        first.len() + j
    }
}

/// Every step that reports a directory that could not be read reports the
/// input directory itself, or a subdirectory reached by a route, with the
/// error that reading it gave.
pub proof fn lemma_reported_dirs_are_unreadable<P>(dir: P, listing: Listing<P>, j: int)
    requires
        0 <= j < listing_steps(dir, Seq::empty(), listing).len(),
        reported(listing_steps(dir, Seq::empty(), listing)[j]) is Some,
    ensures
        (listing is Unreadable && reported(listing_steps(dir, Seq::empty(), listing)[j]) == Some(
            (dir, listing->Unreadable_0@),
        )) || exists|route: Seq<int>|
            #[trigger] unreadable_at(listing, route) == reported(
                listing_steps(dir, Seq::empty(), listing)[j],
            ),
{
    let route = lemma_listing_unreadable_route(dir, Seq::empty(), listing, j);
}

/// Every subdirectory that could not be read is reported, with its path
/// and the error that reading it gave.
pub proof fn lemma_unreadable_dirs_are_reported<P>(dir: P, listing: Listing<P>, route: Seq<int>)
    requires
        unreadable_at(listing, route) is Some,
    ensures
        exists|j: int|
            0 <= j < listing_steps(dir, Seq::empty(), listing).len() && #[trigger] reported(
                listing_steps(dir, Seq::empty(), listing)[j],
            ) == unreadable_at(listing, route),
{
    let j = lemma_listing_route_unreadable(dir, Seq::empty(), listing, route);
}

proof fn lemma_entries_steps_concat<P>(prefix: Seq<Seq<char>>, a: Seq<Entry<P>>, b: Seq<Entry<P>>)
    ensures
        entries_steps(prefix, a + b) == entries_steps(prefix, a) + entries_steps(prefix, b),
    decreases a.len(),
{
    if a.len() == 0 {
        assert(a + b =~= b);
        assert(entries_steps(prefix, a) + entries_steps(prefix, b) =~= entries_steps(prefix, b));
    } else {
        lemma_entries_steps_concat(prefix, a.drop_first(), b);
        assert((a + b).drop_first() =~= a.drop_first() + b);
        assert((a + b)[0] == a[0]);
        let first = entry_steps(prefix, a[0]);
        assert(first + (entries_steps(prefix, a.drop_first()) + entries_steps(prefix, b)) =~= (first
            + entries_steps(prefix, a.drop_first())) + entries_steps(prefix, b));
    }
}

/// The steps follow the order in which the entries were read: the steps
/// of a listing whose entries are those of `a` followed by those of `b` are
/// the steps of `a` followed by the steps of `b`.
pub proof fn lemma_steps_follow_entry_order<P>(
    dir: P,
    prefix: Seq<Seq<char>>,
    a: Vec<Entry<P>>,
    b: Vec<Entry<P>>,
    all: Vec<Entry<P>>,
)
    requires
        all@ == a@ + b@,
    ensures
        listing_steps(dir, prefix, Listing::Entries(all)) == listing_steps(
            dir,
            prefix,
            Listing::Entries(a),
        ) + listing_steps(dir, prefix, Listing::Entries(b)),
{
    lemma_entries_steps_concat(prefix, a@, b@);
}

/* Results */

#[verifier::external_type_specification]
#[verifier::external_body]
pub struct ExPathBuf(PathBuf);

/// `PathBuf::clone`, which the derived `Clone` of [`ConvertResult`] calls.
/// Nothing is stated of the copy.
pub assume_specification[ <PathBuf as Clone>::clone ](path: &PathBuf) -> PathBuf;

/// `PathBuf::new`: an empty path. Nothing is stated of it; the library only
/// carries it.
#[verifier::external_body]
fn empty_path() -> PathBuf {
    PathBuf::new()
}

/// Result of a single file conversion.
#[derive(Debug, Clone)]
pub struct ConvertResult {
    pub src: PathBuf,
    pub dst: PathBuf,
    pub ok: bool,
    pub message: String,
    pub crc_stats: Option<CrcStats>,
}

/// The report of a converted text file: the number of its messages and how
/// many of them passed the CRC check.
pub open spec fn txt_ok_message(stats: CrcStats) -> Seq<char> {
    "OK — "@ + decimal_text(stats.total as nat) + " msgs, CRC "@ + decimal_text(
        stats.passed as nat,
    ) + "/"@ + decimal_text(stats.total as nat) + " passed"@
}

/// The report of a failed conversion.
pub open spec fn error_message(error: Seq<char>) -> Seq<char> {
    "Error: "@ + error
}

/// The report of a directory that could not be read.
pub open spec fn unreadable_message(error: Seq<char>) -> Seq<char> {
    "Failed to read directory: "@ + error
}

/// The result of converting the text file `src` into `dst`.
pub fn txt_result(src: PathBuf, dst: PathBuf, outcome: Result<CrcStats, String>) -> (r:
    ConvertResult)
    ensures
        r.src == src,
        r.dst == dst,
        match outcome {
            Ok(stats) => r.ok && r.message@ == txt_ok_message(stats) && r.crc_stats == Some(stats),
            Err(e) => !r.ok && r.message@ == error_message(e@) && r.crc_stats is None,
        },
{
    match outcome {
        Ok(stats) => {
            let mut message = String::from_str("OK — ");
            message.append(decimal(stats.total).as_str());
            message.append(" msgs, CRC ");
            message.append(decimal(stats.passed).as_str());
            message.append("/");
            message.append(decimal(stats.total).as_str());
            message.append(" passed");
            ConvertResult { src, dst, ok: true, message, crc_stats: Some(stats) }
        },
        Err(e) => {
            let mut message = String::from_str("Error: ");
            message.append(e.as_str());
            ConvertResult { src, dst, ok: false, message, crc_stats: None }
        },
    }
}

/// The result of remuxing the stream `src` into `dst`.
pub fn ts_result(src: PathBuf, dst: PathBuf, outcome: Result<(), String>) -> (r: ConvertResult)
    ensures
        r.src == src,
        r.dst == dst,
        r.crc_stats is None,
        match outcome {
            Ok(()) => r.ok && r.message@ == "OK"@,
            Err(e) => !r.ok && r.message@ == error_message(e@),
        },
{
    match outcome {
        Ok(()) => ConvertResult {
            src,
            dst,
            ok: true,
            message: String::from_str("OK"),
            crc_stats: None,
        },
        Err(e) => {
            let mut message = String::from_str("Error: ");
            message.append(e.as_str());
            ConvertResult { src, dst, ok: false, message, crc_stats: None }
        },
    }
}

/// The result reported for the directory `dir` that could not be read;
/// it has no destination.
pub fn unreadable_result(dir: PathBuf, error: String) -> (r: ConvertResult)
    ensures
        r.src == dir,
        !r.ok,
        r.message@ == unreadable_message(error@),
        r.crc_stats is None,
{
    let mut message = String::from_str("Failed to read directory: ");
    message.append(error.as_str());
    ConvertResult { src: dir, dst: empty_path(), ok: false, message, crc_stats: None }
}

} // verus!
