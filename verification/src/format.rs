use vstd::prelude::*;

use crate::text::{
    all_ascii, ascii_lower, ascii_lower_char, ascii_upper, ascii_upper_char, chars_of, is_ascii_char, last_index_of,
    lemma_last_index_of_bounds, rfind_char, str_eq,
};

verus! {

/// Supported document formats.
#[derive(Debug, Clone, Copy, PartialEq, Eq, Structural)]
pub enum DocumentFormat {
    Pdf,
    Docx,
    Xlsx,
    Pptx,
    Html,
    Csv,
    Json,
    Xml,
    Txt,
    Markdown,
}

/// The canonical lowercase name of a format.
pub open spec fn canonical_name(f: DocumentFormat) -> Seq<char> {
    match f {
        DocumentFormat::Pdf => "pdf"@,
        DocumentFormat::Docx => "docx"@,
        DocumentFormat::Xlsx => "xlsx"@,
        DocumentFormat::Pptx => "pptx"@,
        DocumentFormat::Html => "html"@,
        DocumentFormat::Csv => "csv"@,
        DocumentFormat::Json => "json"@,
        DocumentFormat::Xml => "xml"@,
        DocumentFormat::Txt => "txt"@,
        DocumentFormat::Markdown => "markdown"@,
    }
}

/// The format that an already lowercased extension stands for.
pub open spec fn format_for_extension(e: Seq<char>) -> Option<DocumentFormat> {
    if e == "pdf"@ {
        Some(DocumentFormat::Pdf)
    } else if e == "docx"@ {
        Some(DocumentFormat::Docx)
    } else if e == "xlsx"@ {
        Some(DocumentFormat::Xlsx)
    } else if e == "pptx"@ {
        Some(DocumentFormat::Pptx)
    } else if e == "html"@ || e == "htm"@ {
        Some(DocumentFormat::Html)
    } else if e == "csv"@ {
        Some(DocumentFormat::Csv)
    } else if e == "json"@ {
        Some(DocumentFormat::Json)
    } else if e == "xml"@ {
        Some(DocumentFormat::Xml)
    } else if e == "txt"@ || e == "text"@ || e == "log"@ {
        Some(DocumentFormat::Txt)
    } else if e == "md"@ || e == "markdown"@ {
        Some(DocumentFormat::Markdown)
    } else {
        None
    }
}

/// The characters of a path or URL before its first `?`.
pub open spec fn before_query(p: Seq<char>) -> Seq<char>
    decreases p.len(),
{
    if p.len() == 0 {
        p
    } else if p[0] == '?' {
        Seq::empty()
    } else {
        seq![p[0]] + before_query(p.drop_first())
    }
}

/// The final component of a path on Unix: separators are `/`, empty and `.`
/// components are skipped, and a path that ends in `..` or has no normal
/// component has no file name.
pub open spec fn file_name(p: Seq<char>) -> Option<Seq<char>>
    decreases p.len(),
{
    let k = last_index_of(p, '/');
    let seg = p.skip(k + 1);
    if seg == seq!['.', '.'] {
        None
    } else if seg.len() == 0 || seg == seq!['.'] {
        if k < 0 {
            None
        } else {
            proof {
                lemma_last_index_of_bounds(p, '/');
            }
            file_name(p.take(k))
        }
    } else {
        Some(seg)
    }
}

/// The extension of a file name: what follows its last `.`, unless it has no
/// `.` or its only `.` is its first character.
pub open spec fn extension_of_name(name: Seq<char>) -> Option<Seq<char>> {
    let d = last_index_of(name, '.');
    if d <= 0 {
        None
    } else {
        Some(name.skip(d + 1))
    }
}

/// The extension of the file that a path names.
pub open spec fn path_extension(p: Seq<char>) -> Option<Seq<char>> {
    match file_name(p) {
        Some(name) => extension_of_name(name),
        None => None,
    }
}

/// The Unicode lowercase mapping of a string, as `str::to_lowercase` computes it.
pub uninterp spec fn lowercase(s: Seq<char>) -> Seq<char>;

/// How an extension is lowercased: an ASCII one by making its capital
/// letters small, any other by the Unicode lowercase mapping.
pub open spec fn lower_ext(e: Seq<char>) -> Seq<char> {
    if all_ascii(e) {
        ascii_lower(e)
    } else {
        lowercase(e)
    }
}

/// The format detected from a path or URL: the extension of the part before
/// any query string, lowercased, looked up among the known extensions.
pub open spec fn detect_format(path: Seq<char>) -> Option<DocumentFormat> {
    match path_extension(before_query(path)) {
        Some(e) => format_for_extension(lower_ext(e)),
        None => None,
    }
}

/// Calls `str::to_lowercase`. The contract claims that the result is
/// `lowercase` of the argument's characters, a function of them alone, and
/// that on ASCII text it makes the capital letters small and leaves every
/// other character (the lowercase mapping of the Unicode Character Database
/// on that range). What the mapping does beyond ASCII is left unsaid.
#[verifier::external_body]
fn to_lowercase(s: &str) -> (res: String)
    ensures
        res@ == lowercase(s@),
        all_ascii(s@) ==> res@ == ascii_lower(s@),
{
    s.to_lowercase()
}

proof fn lemma_before_query(p: Seq<char>, k: int)
    requires
        0 <= k <= p.len(),
        forall|j: int| 0 <= j < k ==> p[j] != '?',
        k < p.len() ==> p[k] == '?',
    ensures
        before_query(p) == p.take(k),
    decreases k,
{
    if k == 0 {
        if p.len() == 0 {
            assert(p.take(0) =~= p);
        } else {
            assert(p.take(0) =~= Seq::<char>::empty());
        }
    } else {
        let rest = p.drop_first();
        assert forall|j: int| 0 <= j < k - 1 implies rest[j] != '?' by {
            assert(rest[j] == p[j + 1]);
        }
        if k < p.len() {
            assert(rest[k - 1] == p[k]);
        }
        lemma_before_query(rest, k - 1);
        assert(seq![p[0]] + rest.take(k - 1) =~= p.take(k));
    }
}

/// The number of characters before the first `?`.
fn query_start(v: &Vec<char>) -> (q: usize)
    ensures
        q <= v@.len(),
        before_query(v@) == v@.take(q as int),
{
    let mut i: usize = 0;
    while i < v.len()
        invariant
            i <= v@.len(),
            forall|j: int| 0 <= j < i ==> v@[j] != '?',
        decreases v@.len() - i,
    {
        if v[i] == '?' {
            proof {
                lemma_before_query(v@, i as int);
            }
            return i;
        }
        i = i + 1;
    }
    proof {
        lemma_before_query(v@, i as int);
    }
    i
}

/// The character range of the file name of the path `v[..q]`.
fn file_name_range(v: &Vec<char>, q: usize) -> (r: Option<(usize, usize)>)
    requires
        q <= v@.len(),
    ensures
        match r {
            None => file_name(v@.take(q as int)) is None,
            Some((a, b)) => a <= b <= q && file_name(v@.take(q as int)) == Some(
                v@.subrange(a as int, b as int),
            ),
        },
{
    let mut end = q;
    loop
        invariant
            end <= q <= v@.len(),
            file_name(v@.take(q as int)) == file_name(v@.take(end as int)),
        decreases end,
    {
        let ghost t = v@.take(end as int);
        assert(v@.subrange(0, end as int) =~= t);
        let k = rfind_char(v, 0, end, '/');
        let start: usize = match k {
            None => 0,
            Some(k) => k + 1,
        };
        proof {
            lemma_last_index_of_bounds(t, '/');
            assert(t.skip(last_index_of(t, '/') + 1) =~= v@.subrange(start as int, end as int));
        }
        let len = end - start;
        if len == 2 && v[start] == '.' && v[start + 1] == '.' {
            assert(v@.subrange(start as int, end as int) =~= seq!['.', '.']);
            return None;
        }
        let dot_only = len == 1 && v[start] == '.';
        if dot_only {
            assert(v@.subrange(start as int, end as int) =~= seq!['.']);
        }
        if len == 0 || dot_only {
            match k {
                None => {
                    return None;
                },
                Some(k) => {
                    assert(t.take(k as int) =~= v@.take(k as int));
                    end = k;
                },
            }
        } else {
            assert(v@.subrange(start as int, end as int) !== seq!['.', '.']) by {
                if len == 2 {
                    assert(v@.subrange(start as int, end as int)[0] == v@[start as int]);
                    assert(v@.subrange(start as int, end as int)[1] == v@[start + 1]);
                }
            }
            assert(v@.subrange(start as int, end as int) !== seq!['.']) by {
                if len == 1 {
                    assert(v@.subrange(start as int, end as int)[0] == v@[start as int]);
                }
            }
            return Some((start, end));
        }
    }
}

impl DocumentFormat {
    /// Detect format from file extension. Returns None for unsupported formats.
    pub fn from_extension(path: &str) -> (r: Option<Self>)
        ensures
            r == detect_format(path@),
    {
        let v = chars_of(path);
        let q = query_start(&v);
        match file_name_range(&v, q) {
            None => None,
            Some((a, b)) => {
                let d = rfind_char(&v, a, b, '.');
                proof {
                    lemma_last_index_of_bounds(v@.subrange(a as int, b as int), '.');
                }
                match d {
                    None => None,
                    Some(d) => {
                        if d == a {
                            None
                        } else {
                            let ext = path.substring_char(d + 1, b);
                            assert(ext@ =~= v@.subrange(a as int, b as int).skip(d + 1 - a));
                            let lower = to_lowercase(ext);
                            Self::from_lowercase_extension(lower.as_str())
                        }
                    },
                }
            },
        }
    }

    /// The format that an already lowercased extension (such as "pdf" or
    /// "htm") stands for. Returns None for unsupported extensions.
    pub fn from_lowercase_extension(ext: &str) -> (r: Option<Self>)
        ensures
            r == format_for_extension(ext@),
    {
        if str_eq(ext, "pdf") {
            Some(DocumentFormat::Pdf)
        } else if str_eq(ext, "docx") {
            Some(DocumentFormat::Docx)
        } else if str_eq(ext, "xlsx") {
            Some(DocumentFormat::Xlsx)
        } else if str_eq(ext, "pptx") {
            Some(DocumentFormat::Pptx)
        } else if str_eq(ext, "html") || str_eq(ext, "htm") {
            Some(DocumentFormat::Html)
        } else if str_eq(ext, "csv") {
            Some(DocumentFormat::Csv)
        } else if str_eq(ext, "json") {
            Some(DocumentFormat::Json)
        } else if str_eq(ext, "xml") {
            Some(DocumentFormat::Xml)
        } else if str_eq(ext, "txt") || str_eq(ext, "text") || str_eq(ext, "log") {
            Some(DocumentFormat::Txt)
        } else if str_eq(ext, "md") || str_eq(ext, "markdown") {
            Some(DocumentFormat::Markdown)
        } else {
            None
        }
    }

    /// Resolve a format from a plain name string (e.g. "pdf", "csv").
    /// Useful when the caller wants to override auto-detection by specifying
    /// the format explicitly, such as parsing a `.dat` file as CSV.
    pub fn from_str_name(name: &str) -> (r: Option<Self>)
        ensures
            r == detect_format("file."@ + name@),
    {
        let mut dummy = String::from_str("file.");
        dummy.append(name);
        Self::from_extension(dummy.as_str())
    }

    /// Return the canonical lowercase name for this format.
    pub fn as_str(&self) -> (s: &'static str)
        ensures
            s@ == canonical_name(*self),
    {
        match self {
            DocumentFormat::Pdf => "pdf",
            DocumentFormat::Docx => "docx",
            DocumentFormat::Xlsx => "xlsx",
            DocumentFormat::Pptx => "pptx",
            DocumentFormat::Html => "html",
            DocumentFormat::Csv => "csv",
            DocumentFormat::Json => "json",
            DocumentFormat::Xml => "xml",
            DocumentFormat::Txt => "txt",
            DocumentFormat::Markdown => "markdown",
        }
    }
}

/// Each format's canonical name is one of the extensions that stand for it.
pub proof fn lemma_canonical_name_is_extension(f: DocumentFormat)
    ensures
        format_for_extension(canonical_name(f)) == Some(f),
{
    reveal_strlit("pdf");
    reveal_strlit("docx");
    reveal_strlit("xlsx");
    reveal_strlit("pptx");
    reveal_strlit("html");
    reveal_strlit("htm");
    reveal_strlit("csv");
    reveal_strlit("json");
    reveal_strlit("xml");
    reveal_strlit("txt");
    reveal_strlit("text");
    reveal_strlit("log");
    reveal_strlit("md");
    reveal_strlit("markdown");
    assert("pdf"@.len() == 3 && "pdf"@[0] == 'p');
    assert("docx"@.len() == 4 && "docx"@[0] == 'd');
    assert("xlsx"@.len() == 4 && "xlsx"@[0] == 'x');
    assert("pptx"@.len() == 4 && "pptx"@[0] == 'p');
    assert("html"@.len() == 4 && "html"@[0] == 'h');
    assert("htm"@.len() == 3 && "htm"@[0] == 'h');
    assert("csv"@.len() == 3 && "csv"@[0] == 'c');
    assert("json"@.len() == 4 && "json"@[0] == 'j');
    assert("xml"@.len() == 3 && "xml"@[0] == 'x');
    assert("txt"@.len() == 3 && "txt"@[0] == 't');
    assert("text"@.len() == 4 && "text"@[0] == 't');
    assert("log"@.len() == 3 && "log"@[0] == 'l');
    assert("md"@.len() == 2 && "md"@[0] == 'm');
    assert("markdown"@.len() == 8 && "markdown"@[0] == 'm');
}

/// The extensions that stand for a format, as the format's documentation
/// lists them.
pub open spec fn is_extension_of(e: Seq<char>, f: DocumentFormat) -> bool {
    match f {
        DocumentFormat::Pdf => e == "pdf"@,
        DocumentFormat::Docx => e == "docx"@,
        DocumentFormat::Xlsx => e == "xlsx"@,
        DocumentFormat::Pptx => e == "pptx"@,
        DocumentFormat::Html => e == "html"@ || e == "htm"@,
        DocumentFormat::Csv => e == "csv"@,
        DocumentFormat::Json => e == "json"@,
        DocumentFormat::Xml => e == "xml"@,
        DocumentFormat::Txt => e == "txt"@ || e == "text"@ || e == "log"@,
        DocumentFormat::Markdown => e == "md"@ || e == "markdown"@,
    }
}

/// An extension stands for a format exactly when it is one of the
/// extensions listed for that format; every other extension (such as `doc`
/// or `xls`) stands for none.
pub proof fn lemma_only_listed_extensions(e: Seq<char>, f: DocumentFormat)
    ensures
        (format_for_extension(e) == Some(f)) == is_extension_of(e, f),
        format_for_extension(e) is None <==> (forall|g: DocumentFormat| !is_extension_of(e, g)),
{
    reveal_strlit("pdf");
    reveal_strlit("docx");
    reveal_strlit("xlsx");
    reveal_strlit("pptx");
    reveal_strlit("html");
    reveal_strlit("htm");
    reveal_strlit("csv");
    reveal_strlit("json");
    reveal_strlit("xml");
    reveal_strlit("txt");
    reveal_strlit("text");
    reveal_strlit("log");
    reveal_strlit("md");
    reveal_strlit("markdown");
    assert("pdf"@ =~= seq!['p', 'd', 'f']);
    assert("docx"@ =~= seq!['d', 'o', 'c', 'x']);
    assert("xlsx"@ =~= seq!['x', 'l', 's', 'x']);
    assert("pptx"@ =~= seq!['p', 'p', 't', 'x']);
    assert("html"@ =~= seq!['h', 't', 'm', 'l']);
    assert("htm"@ =~= seq!['h', 't', 'm']);
    assert("csv"@ =~= seq!['c', 's', 'v']);
    assert("json"@ =~= seq!['j', 's', 'o', 'n']);
    assert("xml"@ =~= seq!['x', 'm', 'l']);
    assert("txt"@ =~= seq!['t', 'x', 't']);
    assert("text"@ =~= seq!['t', 'e', 'x', 't']);
    assert("log"@ =~= seq!['l', 'o', 'g']);
    assert("md"@ =~= seq!['m', 'd']);
    assert("markdown"@ =~= seq!['m', 'a', 'r', 'k', 'd', 'o', 'w', 'n']);
    match format_for_extension(e) {
        Some(g) => {
            assert(is_extension_of(e, g));
        },
        None => {},
    }
}

/// A query string never changes the detected format: appending `?` and
/// anything after it to a path that holds no `?` gives the same result.
pub proof fn lemma_query_ignored(path: Seq<char>, query: Seq<char>)
    requires
        forall|j: int| 0 <= j < path.len() ==> path[j] != '?',
    ensures
        detect_format(path + seq!['?'] + query) == detect_format(path),
{
    let full = path + seq!['?'] + query;
    assert forall|j: int| 0 <= j < path.len() implies full[j] != '?' by {
        assert(full[j] == path[j]);
    }
    assert(full[path.len() as int] == '?');
    lemma_before_query(full, path.len() as int);
    lemma_before_query(path, path.len() as int);
    assert(full.take(path.len() as int) =~= path);
    assert(path.take(path.len() as int) =~= path);
}

proof fn lemma_last_index_of_append(s: Seq<char>, t: Seq<char>, c: char)
    requires
        forall|j: int| 0 <= j < t.len() ==> t[j] != c,
    ensures
        last_index_of(s + t, c) == last_index_of(s, c),
    decreases t.len(),
{
    if t.len() > 0 {
        assert((s + t).drop_last() =~= s + t.drop_last());
        assert((s + t).last() == t.last());
        lemma_last_index_of_append(s, t.drop_last(), c);
    } else {
        assert(s + t =~= s);
    }
}

/// A normal file name: not empty, not `.` or `..`, holding no `/`.
pub open spec fn is_plain_file_name(n: Seq<char>) -> bool {
    &&& n.len() > 0
    &&& n != seq!['.']
    &&& n != seq!['.', '.']
    &&& forall|j: int| 0 <= j < n.len() ==> n[j] != '/'
}

/// The directories in front of a file name never change the detected format.
pub proof fn lemma_directory_ignored(dir: Seq<char>, name: Seq<char>)
    requires
        is_plain_file_name(name),
        forall|j: int| 0 <= j < dir.len() ==> dir[j] != '?',
        forall|j: int| 0 <= j < name.len() ==> name[j] != '?',
    ensures
        detect_format(dir + seq!['/'] + name) == detect_format(name),
{
    let full = dir + seq!['/'] + name;
    assert forall|j: int| 0 <= j < full.len() implies full[j] != '?' by {
        if j < dir.len() {
            assert(full[j] == dir[j]);
        } else if j > dir.len() {
            assert(full[j] == name[j - dir.len() - 1]);
        }
    }
    lemma_before_query(full, full.len() as int);
    lemma_before_query(name, name.len() as int);
    assert(full.take(full.len() as int) =~= full);
    assert(name.take(name.len() as int) =~= name);
    lemma_last_index_of_append(dir + seq!['/'], name, '/');
    lemma_last_index_of_append(Seq::empty(), name, '/');
    assert(Seq::<char>::empty() + name =~= name);
    assert((dir + seq!['/']).last() == '/');
    assert(full.skip(dir.len() + 1int) =~= name);
    assert(name.skip(0) =~= name);
}

proof fn lemma_name_path_extension(name: Seq<char>)
    requires
        name.len() > 0,
        forall|j: int| 0 <= j < name.len() ==> name[j] != '?' && name[j] != '/' && name[j] != '.',
    ensures
        path_extension(before_query("file."@ + name)) == Some(name),
{
    reveal_strlit("file.");
    let prefix = "file."@;
    assert(prefix =~= seq!['f', 'i', 'l', 'e', '.']);
    let full = prefix + name;
    assert forall|j: int| 0 <= j < full.len() implies full[j] != '?' && full[j] != '/' by {
        if j >= 5 {
            assert(full[j] == name[j - 5]);
        }
    }
    lemma_before_query(full, full.len() as int);
    assert(full.take(full.len() as int) =~= full);
    lemma_last_index_of_append(Seq::empty(), full, '/');
    assert(Seq::<char>::empty() + full =~= full);
    assert(full.skip(0) =~= full);
    assert(full != seq!['.', '.']) by {
        assert(full.len() >= 6);
    }
    assert(full != seq!['.']) by {
        assert(full.len() >= 6);
    }
    assert(file_name(full) == Some(full));
    lemma_last_index_of_append(prefix, name, '.');
    assert(prefix.last() == '.');
    assert(last_index_of(full, '.') == 4);
    assert(full.skip(5) =~= name);
}

/// A format name made of no `?`, `/` or `.` resolves as the extension it
/// is: naming a format is looking up its lowercase form among the extensions.
pub proof fn lemma_format_name_is_extension(name: Seq<char>)
    requires
        name.len() > 0,
        forall|j: int| 0 <= j < name.len() ==> name[j] != '?' && name[j] != '/' && name[j] != '.',
    ensures
        detect_format("file."@ + name) == format_for_extension(lower_ext(name)),
{
    lemma_name_path_extension(name);
}

/// A canonical name is made of small ASCII letters.
pub open spec fn is_small_letters(s: Seq<char>) -> bool {
    s.len() > 0 && forall|i: int| 0 <= i < s.len() ==> 'a' <= #[trigger] s[i] && s[i] <= 'z'
}

proof fn lemma_canonical_name_letters(f: DocumentFormat)
    ensures
        is_small_letters(canonical_name(f)),
{
    match f {
        DocumentFormat::Pdf => {
            reveal_strlit("pdf");
            assert("pdf"@ =~= seq!['p', 'd', 'f']);
        },
        DocumentFormat::Docx => {
            reveal_strlit("docx");
            assert("docx"@ =~= seq!['d', 'o', 'c', 'x']);
        },
        DocumentFormat::Xlsx => {
            reveal_strlit("xlsx");
            assert("xlsx"@ =~= seq!['x', 'l', 's', 'x']);
        },
        DocumentFormat::Pptx => {
            reveal_strlit("pptx");
            assert("pptx"@ =~= seq!['p', 'p', 't', 'x']);
        },
        DocumentFormat::Html => {
            reveal_strlit("html");
            assert("html"@ =~= seq!['h', 't', 'm', 'l']);
        },
        DocumentFormat::Csv => {
            reveal_strlit("csv");
            assert("csv"@ =~= seq!['c', 's', 'v']);
        },
        DocumentFormat::Json => {
            reveal_strlit("json");
            assert("json"@ =~= seq!['j', 's', 'o', 'n']);
        },
        DocumentFormat::Xml => {
            reveal_strlit("xml");
            assert("xml"@ =~= seq!['x', 'm', 'l']);
        },
        DocumentFormat::Txt => {
            reveal_strlit("txt");
            assert("txt"@ =~= seq!['t', 'x', 't']);
        },
        DocumentFormat::Markdown => {
            reveal_strlit("markdown");
            assert("markdown"@ =~= seq!['m', 'a', 'r', 'k', 'd', 'o', 'w', 'n']);
        },
    }
}

/// Naming a format by its canonical name gives that format back:
/// `from_str_name(f.as_str()) == Some(f)`.
pub proof fn lemma_canonical_name_round_trip(f: DocumentFormat)
    ensures
        detect_format("file."@ + canonical_name(f)) == Some(f),
{
    let name = canonical_name(f);
    lemma_canonical_name_letters(f);
    assert forall|i: int| 0 <= i < name.len() implies is_ascii_char(#[trigger] name[i]) by {
        assert('a' <= name[i] && name[i] <= 'z');
    }
    lemma_name_path_extension(name);
    assert(ascii_lower(name) =~= name);
    lemma_canonical_name_is_extension(f);
}

/// A mapping of characters that neither makes nor removes a `?`, `/` or `.`.
pub open spec fn keeps_marks(m: spec_fn(char) -> char) -> bool {
    forall|c: char|
        #![trigger m(c)]
        ((m(c) == '?') == (c == '?')) && ((m(c) == '/') == (c == '/')) && ((m(c) == '.') == (c
            == '.'))
}

proof fn lemma_before_query_map(p: Seq<char>, m: spec_fn(char) -> char)
    requires
        keeps_marks(m),
    ensures
        before_query(p.map_values(m)) == before_query(p).map_values(m),
    decreases p.len(),
{
    let mp = p.map_values(m);
    if p.len() > 0 {
        assert(m(p[0]) == mp[0]);
        assert(mp.drop_first() =~= p.drop_first().map_values(m));
        lemma_before_query_map(p.drop_first(), m);
        if p[0] != '?' {
            assert((seq![p[0]] + before_query(p.drop_first())).map_values(m) =~= seq![mp[0]]
                + before_query(p.drop_first()).map_values(m));
        } else {
            assert(Seq::<char>::empty().map_values(m) =~= Seq::<char>::empty());
        }
    } else {
        assert(mp =~= p);
    }
}

proof fn lemma_last_index_map(s: Seq<char>, c: char, m: spec_fn(char) -> char)
    requires
        keeps_marks(m),
        c == '?' || c == '/' || c == '.',
    ensures
        last_index_of(s.map_values(m), c) == last_index_of(s, c),
    decreases s.len(),
{
    if s.len() > 0 {
        assert(m(s.last()) == s.map_values(m).last());
        assert(s.map_values(m).drop_last() =~= s.drop_last().map_values(m));
        lemma_last_index_map(s.drop_last(), c, m);
    }
}

proof fn lemma_segment_map(seg: Seq<char>, m: spec_fn(char) -> char)
    requires
        keeps_marks(m),
    ensures
        (seg.map_values(m) == seq!['.', '.']) == (seg == seq!['.', '.']),
        (seg.map_values(m) == seq!['.']) == (seg == seq!['.']),
{
    let ms = seg.map_values(m);
    if seg.len() == 2 {
        assert(m(seg[0]) == ms[0] && m(seg[1]) == ms[1]);
        if seg[0] == '.' && seg[1] == '.' {
            assert(seg =~= seq!['.', '.']);
            assert(ms =~= seq!['.', '.']);
        } else {
            let dd = seq!['.', '.'];
            assert(dd[0] == '.' && dd[1] == '.');
            assert(ms[0] != '.' || ms[1] != '.');
        }
    } else {
        assert(ms.len() == seg.len());
        assert(seq!['.', '.'].len() == 2);
    }
    if seg.len() == 1 {
        assert(m(seg[0]) == ms[0]);
        if seg[0] == '.' {
            assert(seg =~= seq!['.']);
            assert(ms =~= seq!['.']);
        } else {
            assert(seq!['.'][0] == '.');
            assert(ms[0] != '.');
        }
    } else {
        assert(seq!['.'].len() == 1);
    }
}

proof fn lemma_file_name_map(p: Seq<char>, m: spec_fn(char) -> char)
    requires
        keeps_marks(m),
    ensures
        file_name(p.map_values(m)) == match file_name(p) {
            Some(n) => Some(n.map_values(m)),
            None => None,
        },
    decreases p.len(),
{
    let mp = p.map_values(m);
    let k = last_index_of(p, '/');
    lemma_last_index_map(p, '/', m);
    lemma_last_index_of_bounds(p, '/');
    let seg = p.skip(k + 1);
    assert(mp.skip(k + 1) =~= seg.map_values(m));
    lemma_segment_map(seg, m);
    if seg != seq!['.', '.'] && (seg.len() == 0 || seg == seq!['.']) && k >= 0 {
        assert(mp.take(k) =~= p.take(k).map_values(m));
        lemma_file_name_map(p.take(k), m);
    }
}

proof fn lemma_extension_map(n: Seq<char>, m: spec_fn(char) -> char)
    requires
        keeps_marks(m),
    ensures
        extension_of_name(n.map_values(m)) == match extension_of_name(n) {
            Some(e) => Some(e.map_values(m)),
            None => None,
        },
{
    lemma_last_index_map(n, '.', m);
    let d = last_index_of(n, '.');
    if d > 0 {
        lemma_last_index_of_bounds(n, '.');
        assert(n.map_values(m).skip(d + 1) =~= n.skip(d + 1).map_values(m));
    }
}

/// The extension of a path with its characters mapped by `m` is the
/// extension of the path, mapped by `m`.
proof fn lemma_path_extension_map(path: Seq<char>, m: spec_fn(char) -> char)
    requires
        keeps_marks(m),
    ensures
        path_extension(before_query(path.map_values(m))) == match path_extension(
            before_query(path),
        ) {
            Some(e) => Some(e.map_values(m)),
            None => None,
        },
{
    lemma_before_query_map(path, m);
    let q = before_query(path);
    lemma_file_name_map(q, m);
    match file_name(q) {
        Some(n) => lemma_extension_map(n, m),
        None => {},
    }
}

/// The extension of a path or URL, when it has one, is made of ASCII
/// characters.
pub open spec fn has_ascii_extension(path: Seq<char>) -> bool {
    match path_extension(before_query(path)) {
        Some(e) => all_ascii(e),
        None => true,
    }
}

/// The letter case of the ASCII letters in a path or URL never changes the
/// detected format, whose extension is ASCII: making its small letters
/// capital, or its capital letters small, gives the same result. (Which
/// non-ASCII extension a case change could turn into a known one rests on the
/// Unicode lowercase mapping, which is not modelled here.)
pub proof fn lemma_ascii_case_ignored(path: Seq<char>)
    requires
        has_ascii_extension(path),
    ensures
        detect_format(ascii_lower(path)) == detect_format(path),
        detect_format(ascii_upper(path)) == detect_format(path),
{
    let ml = |c: char| ascii_lower_char(c);
    let mu = |c: char| ascii_upper_char(c);
    assert forall|c: char| #![trigger ml(c)] ((ml(c) == '?') == (c == '?')) && ((ml(c) == '/') == (
    c == '/')) && ((ml(c) == '.') == (c == '.')) by {
        if 'A' <= c && c <= 'Z' {
            assert('a' <= ascii_lower_char(c) && ascii_lower_char(c) <= 'z');
        }
    }
    assert forall|c: char| #![trigger mu(c)] ((mu(c) == '?') == (c == '?')) && ((mu(c) == '/') == (
    c == '/')) && ((mu(c) == '.') == (c == '.')) by {
        if 'a' <= c && c <= 'z' {
            assert('A' <= ascii_upper_char(c) && ascii_upper_char(c) <= 'Z');
        }
    }
    assert(ascii_lower(path) =~= path.map_values(ml));
    assert(ascii_upper(path) =~= path.map_values(mu));
    lemma_path_extension_map(path, ml);
    lemma_path_extension_map(path, mu);
    match path_extension(before_query(path)) {
        Some(e) => {
            let le = e.map_values(ml);
            let ue = e.map_values(mu);
            assert forall|i: int| 0 <= i < le.len() implies is_ascii_char(#[trigger] le[i]) by {
                assert(is_ascii_char(e[i]));
            }
            assert forall|i: int| 0 <= i < ue.len() implies is_ascii_char(#[trigger] ue[i]) by {
                assert(is_ascii_char(e[i]));
            }
            assert(ascii_lower(le) =~= ascii_lower(e));
            assert forall|i: int| 0 <= i < e.len() implies #[trigger] ascii_lower(ue)[i]
                == ascii_lower(e)[i] by {
                let c = e[i];
                if 'a' <= c && c <= 'z' {
                    assert('A' <= ascii_upper_char(c) && ascii_upper_char(c) <= 'Z');
                }
            }
            assert(ascii_lower(ue) =~= ascii_lower(e));
        },
        None => {},
    }
}

} // verus!
