//! Where binary dictionaries are found: the directories searched for a
//! dictionary by name, and which of its files a usage needs.
use vstd::prelude::*;
use crate::error::{Error, Result};
use crate::text::{chars_of, owned, push_str, string_from_char_range};
use crate::types::MorfeuszUsage;

verus! {

/// `file` appended to `dir` as a path component (as `Path::join`): an
/// absolute `file` replaces `dir`, and a separator is put between them when
/// `dir` is not empty and does not end with one.
pub open spec fn path_joined(dir: Seq<char>, file: Seq<char>) -> Seq<char> {
    if file.len() > 0 && file[0] == '/' {
        file
    } else if dir.len() == 0 || dir.last() == '/' {
        dir + file
    } else {
        dir + seq!['/'] + file
    }
}

/// `dir` joined with `file`, as paths.
pub fn join_path(dir: &str, file: &str) -> (r: String)
    ensures
        r@ == path_joined(dir@, file@),
{
    let d = chars_of(dir);
    let f = chars_of(file);
    if f.len() > 0 && f[0] == '/' {
        return owned(file);
    }
    let mut r = owned(dir);
    if d.len() > 0 && d[d.len() - 1] != '/' {
        crate::text::push_char(&mut r, '/');
    }
    push_str(&mut r, file);
    r
}

/// Whether something exists at the path. What it answers depends on the
/// file system at the time of the call, so nothing is stated of it.
#[verifier::external_body]
fn path_exists(path: &str) -> bool {
    std::path::Path::new(path).exists()
}

/// The file name of a dictionary part: the name, then `suffix`.
pub fn part_file_name(dict_name: &str, suffix: &str) -> (r: String)
    ensures
        r@ == dict_name@ + suffix@,
{
    let mut r = owned(dict_name);
    push_str(&mut r, suffix);
    r
}

/// The text of an optional path.
pub open spec fn found_option(o: Option<String>) -> Option<Seq<char>> {
    match o {
        Some(p) => Some(p@),
        None => None,
    }
}

/// Directory `i` is the first, in search order, where `file` was found.
pub open spec fn first_found_at(present: Seq<bool>, i: int) -> bool {
    0 <= i < present.len() && present[i] && forall|j: int| 0 <= j < i ==> !present[j]
}

/// `file` in the first of the directories where it was found (`present`
/// says, for each directory in order, whether it was), if any.
pub open spec fn first_found(dirs: Seq<Seq<char>>, file: Seq<char>, present: Seq<bool>) -> Option<Seq<char>> {
    if exists|i: int| #[trigger] first_found_at(present, i) {
        Some(path_joined(dirs[choose|i: int| #[trigger] first_found_at(present, i)], file))
    } else {
        None
    }
}

/// Where a named dictionary's two files were taken from, given which
/// directories hold each.
pub open spec fn named_found(dirs: Seq<Seq<char>>, dict_name: Seq<char>, analyzer_present: Seq<bool>,
    generator_present: Seq<bool>, paths: NamedDictionaryPaths) -> bool {
    &&& analyzer_present.len() == dirs.len()
    &&& generator_present.len() == dirs.len()
    &&& found_option(paths.analyzer) == first_found(dirs, dict_name + "-a.dict"@, analyzer_present)
    &&& found_option(paths.generator) == first_found(dirs, dict_name + "-s.dict"@, generator_present)
}

proof fn lemma_first_found_at_unique(present: Seq<bool>, i: int, j: int)
    requires
        first_found_at(present, i),
        first_found_at(present, j),
    ensures
        i == j,
{
    if i < j {
        assert(!present[i]);
    }
    if j < i {
        assert(!present[j]);
    }
}

/// Where a file is in some directory, it is taken from a directory no later
/// than that one, the first where it was found: no earlier directory holds it.
pub proof fn law_first_directory_wins(dirs: Seq<Seq<char>>, file: Seq<char>, present: Seq<bool>, i: int)
    requires
        present.len() == dirs.len(),
        0 <= i < present.len(),
        present[i],
    ensures
        first_found(dirs, file, present) matches Some(p) && exists|j: int| 0 <= j <= i && present[j]
            && p == path_joined(dirs[j], file) && forall|k: int| 0 <= k < j ==> !present[k],
    decreases i,
{
    if exists|k: int| 0 <= k < i && present[k] {
        let k = choose|k: int| 0 <= k < i && present[k];
        law_first_directory_wins(dirs, file, present, k);
    } else {
        assert(first_found_at(present, i));
    }
    let j = choose|j: int| #[trigger] first_found_at(present, j);
    assert(first_found_at(present, j));
    if j > i {
        assert(!present[i]);
    }
}

proof fn lemma_first_present_found(dirs: Seq<Seq<char>>, file: Seq<char>, candidates: Seq<String>, present: Seq<bool>,
    r: Option<String>)
    requires
        candidates.len() == present.len(),
        present.len() == dirs.len(),
        forall|j: int| 0 <= j < candidates.len() ==> #[trigger] candidates[j]@ == path_joined(dirs[j], file),
        r is None <==> forall|i: int| 0 <= i < present.len() ==> !present[i],
        r matches Some(p) ==> exists|i: int| 0 <= i < present.len() && present[i]
            && p@ == candidates[i]@
            && forall|j: int| 0 <= j < i ==> !present[j],
    ensures
        found_option(r) == first_found(dirs, file, present),
{
    match r {
        Some(p) => {
            let i = choose|i: int| 0 <= i < present.len() && present[i] && p@ == candidates[i]@
                && forall|j: int| 0 <= j < i ==> !present[j];
            assert(first_found_at(present, i));
            let c = choose|c: int| #[trigger] first_found_at(present, c);
            lemma_first_found_at_unique(present, i, c);
        },
        None => {
            if exists|i: int| #[trigger] first_found_at(present, i) {
                let i = choose|i: int| #[trigger] first_found_at(present, i);
                assert(!present[i]);
            }
        },
    }
}

/// The first candidate marked present, if any.
pub fn first_present(candidates: &[String], present: &[bool]) -> (r: Option<String>)
    requires
        candidates@.len() == present@.len(),
    ensures
        r is None <==> forall|i: int| 0 <= i < present@.len() ==> !present@[i],
        r matches Some(p) ==> exists|i: int| 0 <= i < present@.len() && present@[i]
            && p@ == candidates@[i]@
            && forall|j: int| 0 <= j < i ==> !present@[j],
{
    let mut i: usize = 0;
    while i < candidates.len()
        invariant
            candidates@.len() == present@.len(),
            i <= present@.len(),
            forall|j: int| 0 <= j < i ==> !present@[j],
        decreases present@.len() - i,
    {
        if present[i] {
            return Some(owned(candidates[i].as_str()));
        }
        i = i + 1;
    }
    None
}

/// The analyzer and generator files of a named dictionary, where found.
#[derive(Debug, Clone, PartialEq, Eq)]
pub struct NamedDictionaryPaths {
    pub analyzer: Option<String>,
    pub generator: Option<String>,
}

/// The directories searched for dictionaries, in order.
#[derive(Debug, Clone, PartialEq, Eq)]
pub struct BinaryDictionaryRepository {
    search_paths: Vec<String>,
}

impl Default for BinaryDictionaryRepository {
    /// The current directory only.
    fn default() -> (r: Self)
        ensures
            r.view() == seq![seq!['.']],
    {
        let mut search_paths: Vec<String> = Vec::new();
        search_paths.push(owned("."));
        proof { reveal_strlit("."); }
        assert("."@ =~= seq!['.']);
        let r = BinaryDictionaryRepository { search_paths };
        assert(r.view() =~= seq![seq!['.']]);
        r
    }
}

impl BinaryDictionaryRepository {
    /// The search directories, in order.
    pub closed spec fn view(&self) -> Seq<Seq<char>> {
        self.search_paths@.map_values(|p: String| p@)
    }

    /// A repository searching the given directories, in order; an empty
    /// list searches nowhere.
    pub fn new(search_paths: Vec<String>) -> (r: Self)
        ensures
            r.view() == search_paths@.map_values(|p: String| p@),
    {
        BinaryDictionaryRepository { search_paths }
    }

    pub fn search_paths(&self) -> (r: &[String])
        ensures
            r@.map_values(|p: String| p@) == self.view(),
    {
        self.search_paths.as_slice()
    }

    /// The first directory, in search order, holding `<name>-a.dict`, and the
    /// first holding `<name>-s.dict`. Which files exist is up to the file
    /// system; each part found is that file in one of the search
    /// directories.
    pub fn find_named(&self, dict_name: &str) -> (paths: NamedDictionaryPaths)
        ensures
            paths.analyzer matches Some(p) ==> exists|i: int| 0 <= i < self.view().len()
                && p@ == path_joined(self.view()[i], dict_name@ + "-a.dict"@),
            paths.generator matches Some(p) ==> exists|i: int| 0 <= i < self.view().len()
                && p@ == path_joined(self.view()[i], dict_name@ + "-s.dict"@),
            self.view().len() == 0 ==> paths.analyzer is None && paths.generator is None,
            exists|pa: Seq<bool>, pg: Seq<bool>| #[trigger] named_found(self.view(), dict_name@, pa, pg, paths),
    {
        let analyzer_file = part_file_name(dict_name, "-a.dict");
        let generator_file = part_file_name(dict_name, "-s.dict");
        let mut analyzer_candidates: Vec<String> = Vec::new();
        let mut generator_candidates: Vec<String> = Vec::new();
        let mut analyzer_present: Vec<bool> = Vec::new();
        let mut generator_present: Vec<bool> = Vec::new();
        let mut i: usize = 0;
        while i < self.search_paths.len()
            invariant
                i <= self.search_paths@.len(),
                analyzer_candidates@.len() == i,
                generator_candidates@.len() == i,
                analyzer_present@.len() == i,
                generator_present@.len() == i,
                analyzer_file@ == dict_name@ + "-a.dict"@,
                generator_file@ == dict_name@ + "-s.dict"@,
                forall|j: int| 0 <= j < i ==> #[trigger] analyzer_candidates@[j]@
                    == path_joined(self.view()[j], analyzer_file@),
                forall|j: int| 0 <= j < i ==> #[trigger] generator_candidates@[j]@
                    == path_joined(self.view()[j], generator_file@),
            decreases self.search_paths@.len() - i,
        {
            let dir = self.search_paths[i].as_str();
            assert(self.view()[i as int] == dir@);
            let a = join_path(dir, analyzer_file.as_str());
            let g = join_path(dir, generator_file.as_str());
            analyzer_present.push(path_exists(a.as_str()));
            generator_present.push(path_exists(g.as_str()));
            analyzer_candidates.push(a);
            generator_candidates.push(g);
            i = i + 1;
        }
        let analyzer = first_present(analyzer_candidates.as_slice(), analyzer_present.as_slice());
        let generator = first_present(generator_candidates.as_slice(), generator_present.as_slice());
        proof {
            lemma_first_present_found(self.view(), analyzer_file@, analyzer_candidates@, analyzer_present@, analyzer);
            lemma_first_present_found(self.view(), generator_file@, generator_candidates@, generator_present@, generator);
        }
        let paths = NamedDictionaryPaths { analyzer, generator };
        assert(named_found(self.view(), dict_name@, analyzer_present@, generator_present@, paths));
        paths
    }
}

/// The message when a named dictionary lacks the part a usage needs.
pub open spec fn missing_part_message(kind: Seq<char>, dict_name: Seq<char>) -> Seq<char> {
    "Failed to load "@ + kind + " dictionary \""@ + dict_name + "\""@
}

fn missing_part(kind: &str, dict_name: &str) -> (e: Error)
    ensures
        e matches Error::NotFound(m) && m@ == missing_part_message(kind@, dict_name@),
{
    let mut m = owned("Failed to load ");
    push_str(&mut m, kind);
    push_str(&mut m, " dictionary \"");
    push_str(&mut m, dict_name);
    push_str(&mut m, "\"");
    Error::NotFound(m)
}

/// The parts of a named dictionary that a usage loads: the analyzer to
/// analyse, the generator to generate, both for both. `NotFound` when a
/// needed part is missing, the analyzer checked first.
pub fn parts_for_usage(paths: NamedDictionaryPaths, dict_name: &str, usage: MorfeuszUsage) -> (r: Result<NamedDictionaryPaths>)
    ensures
        ({
            let need_analyzer = usage != MorfeuszUsage::GenerateOnly;
            let need_generator = usage != MorfeuszUsage::AnalyseOnly;
            &&& r is Ok <==> (need_analyzer ==> paths.analyzer is Some) && (need_generator ==> paths.generator is Some)
            &&& r matches Ok(p) ==> (p.analyzer == if need_analyzer { paths.analyzer } else { None })
                && (p.generator == if need_generator { paths.generator } else { None })
            &&& r matches Err(e) ==> e matches Error::NotFound(m) && m@ == (if need_analyzer && paths.analyzer is None {
                missing_part_message("analyzer"@, dict_name@)
            } else {
                missing_part_message("generator"@, dict_name@)
            })
        }),
{
    match usage {
        MorfeuszUsage::AnalyseOnly => match paths.analyzer {
            Some(a) => Ok(NamedDictionaryPaths { analyzer: Some(a), generator: None }),
            None => Err(missing_part("analyzer", dict_name)),
        },
        MorfeuszUsage::GenerateOnly => match paths.generator {
            Some(g) => Ok(NamedDictionaryPaths { analyzer: None, generator: Some(g) }),
            None => Err(missing_part("generator", dict_name)),
        },
        MorfeuszUsage::BothAnalyseAndGenerate => match paths.analyzer {
            None => Err(missing_part("analyzer", dict_name)),
            Some(a) => match paths.generator {
                None => Err(missing_part("generator", dict_name)),
                Some(g) => Ok(NamedDictionaryPaths { analyzer: Some(a), generator: Some(g) }),
            },
        },
    }
}

/// Which kind of dictionary a file is loaded as, and the usage it gets.
#[derive(Debug, Clone, Copy, PartialEq, Eq, Structural)]
pub enum BinaryDictionaryUsage {
    Analyzer(MorfeuszUsage),
    Generator(MorfeuszUsage),
}

/// The file name of a path (as `Path::file_name`, empty where that gives
/// none): its last component, with trailing separators and `.` components
/// left out; none for `..` or when nothing is left.
pub open spec fn file_name_of(path: Seq<char>) -> Seq<char>
    decreases path.len(),
{
    if path.len() > 0 && path.last() == '/' {
        file_name_of(path.drop_last())
    } else if last_component(path) == "."@ {
        if path.len() <= 1 { Seq::empty() } else { file_name_of(path.drop_last()) }
    } else if last_component(path) == ".."@ {
        Seq::empty()
    } else {
        last_component(path)
    }
}

/// What follows the last `/`.
pub open spec fn last_component(path: Seq<char>) -> Seq<char>
    decreases path.len(),
{
    if path.len() == 0 || path.last() == '/' {
        Seq::empty()
    } else {
        last_component(path.drop_last()).push(path.last())
    }
}

/// The last component runs from just after the last `/`.
proof fn lemma_last_component(s: Seq<char>, start: int)
    requires
        0 <= start <= s.len(),
        forall|k: int| start <= k < s.len() ==> s[k] != '/',
        start == 0 || s[start - 1] == '/',
    ensures
        last_component(s) == s.subrange(start, s.len() as int),
    decreases s.len(),
{
    if s.len() == start {
        assert(s.subrange(start, s.len() as int) =~= Seq::<char>::empty());
    } else {
        lemma_last_component(s.drop_last(), start);
        assert(s.subrange(start, s.len() as int) =~= s.drop_last().subrange(start, s.len() - 1).push(s.last()));
    }
}

/// `s` ends with `suffix`.
pub open spec fn ends_with(s: Seq<char>, suffix: Seq<char>) -> bool {
    suffix.len() <= s.len() && s.skip(s.len() - suffix.len()) == suffix
}

/// Whether `text` ends with `suffix`.
pub fn str_ends_with(text: &str, suffix: &str) -> (r: bool)
    ensures
        r == ends_with(text@, suffix@),
{
    let t = chars_of(text);
    let s = chars_of(suffix);
    if s.len() > t.len() {
        return false;
    }
    let offset = t.len() - s.len();
    let mut i: usize = 0;
    while i < s.len()
        invariant
            t@ == text@,
            s@ == suffix@,
            offset == t@.len() - s@.len(),
            offset + s@.len() == t@.len(),
            t@.len() == t.len(),
            i <= s@.len(),
            forall|k: int| 0 <= k < i ==> t@[offset + k] == s@[k],
        decreases s@.len() - i,
    {
        if t[offset + i] != s[i] {
            assert(text@.skip(offset as int)[i as int] != suffix@[i as int]);
            return false;
        }
        i = i + 1;
    }
    assert(text@.skip(offset as int) =~= suffix@);
    true
}

/// Whether the file name of the path ends with `suffix`.
pub fn file_name_ends_with(path: &str, suffix: &str) -> (r: bool)
    ensures
        r == ends_with(file_name_of(path@), suffix@),
{
    let p = chars_of(path);
    let mut end = p.len();
    assert(p@.take(end as int) =~= p@);
    loop
        invariant
            p@ == path@,
            end <= p@.len(),
            file_name_of(p@.take(end as int)) == file_name_of(p@),
        decreases end,
    {
        if end > 0 && p[end - 1] == '/' {
            assert(p@.take(end as int).drop_last() =~= p@.take(end - 1));
            end = end - 1;
            continue;
        }
        let mut start = end;
        while start > 0 && p[start - 1] != '/'
            invariant
                start <= end <= p@.len(),
                forall|k: int| start <= k < end ==> p@[k] != '/',
            decreases start,
        {
            start = start - 1;
        }
        let ghost q = p@.take(end as int);
        proof {
            if end > 0 {
                assert(q.last() == p@[end - 1]);
            }
            if suffix@.len() == 0 {
                assert(Seq::<char>::empty().skip(0) =~= suffix@);
            }
            lemma_last_component(q, start as int);
            assert(q.subrange(start as int, end as int) =~= p@.subrange(start as int, end as int));
            reveal_strlit(".");
            reveal_strlit("..");
        }
        let name = string_from_char_range(p.as_slice(), start, end);
        if end - start == 1 && p[start] == '.' {
            assert(name@ =~= "."@);
            if end == 1 {
                assert(file_name_of(q) =~= Seq::<char>::empty());
                assert(!ends_with(Seq::<char>::empty(), suffix@) || suffix@.len() == 0);
                return chars_of(suffix).len() == 0;
            }
            assert(q.drop_last() =~= p@.take(end - 1));
            end = end - 1;
            continue;
        }
        if end - start == 2 && p[start] == '.' && p[start + 1] == '.' {
            assert(name@ =~= ".."@);
            assert(file_name_of(q) =~= Seq::<char>::empty());
            return chars_of(suffix).len() == 0;
        }
        proof {
            assert("."@ =~= seq!['.']);
            assert(".."@ =~= seq!['.', '.']);
            assert(name@.len() == end - start);
            if name@.len() > 0 {
                assert(name@[0] == p@[start as int]);
            }
            if name@.len() > 1 {
                assert(name@[1] == p@[start + 1]);
            }
        }
        assert(name@ != "."@);
        assert(name@ != ".."@);
        assert(last_component(q) == name@);
        assert(file_name_of(q) == name@);
        return str_ends_with(name.as_str(), suffix);
    }
}

/// How a dictionary file is loaded for a usage: as an analyzer or a
/// generator as the usage says; for both, a file named `...-s.dict` as a
/// generator only and any other as an analyzer only.
pub fn binary_dictionary_usage(path: &str, usage: MorfeuszUsage) -> (r: BinaryDictionaryUsage)
    ensures
        r == match usage {
            MorfeuszUsage::AnalyseOnly => BinaryDictionaryUsage::Analyzer(usage),
            MorfeuszUsage::GenerateOnly => BinaryDictionaryUsage::Generator(usage),
            MorfeuszUsage::BothAnalyseAndGenerate => if ends_with(file_name_of(path@), "-s.dict"@) {
                BinaryDictionaryUsage::Generator(MorfeuszUsage::GenerateOnly)
            } else {
                BinaryDictionaryUsage::Analyzer(MorfeuszUsage::AnalyseOnly)
            },
        },
{
    match usage {
        MorfeuszUsage::AnalyseOnly => BinaryDictionaryUsage::Analyzer(usage),
        MorfeuszUsage::GenerateOnly => BinaryDictionaryUsage::Generator(usage),
        MorfeuszUsage::BothAnalyseAndGenerate => {
            if file_name_ends_with(path, "-s.dict") {
                BinaryDictionaryUsage::Generator(MorfeuszUsage::GenerateOnly)
            } else {
                BinaryDictionaryUsage::Analyzer(MorfeuszUsage::AnalyseOnly)
            }
        },
    }
}

} // verus!
