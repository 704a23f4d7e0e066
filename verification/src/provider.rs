//! The code-graph provider's side of the data: which files it reads, the
//! queries sent to GitNexus and the reading of its answers.
use vstd::prelude::*;
use crate::error::{compatibility, ProviderError};
use crate::markdown_table::{self, Table, rows_view, table_of, lemma_table_width};
use crate::text::{
    cat2, cat3, cat4, cat5, chars_of, decimal, decimal_spec, ends_with, has_suffix, lower_code,
    lower_code_exec, opt_view, replace_char, replace_chars, string_of, views,
};
use crate::compiler::{finite_bits, CodeEdge};

verus! {

/// How to refresh the provider's index before compiling.
#[derive(Debug, Clone, Copy, PartialEq, Eq, Structural)]
pub enum ReindexMode {
    /// Reuse cached analysis for unchanged files (fast; the default).
    Incremental,
    /// Rebuild from scratch. Needed after changing resolver configuration
    /// (package.json, tsconfig, workspace files), which the cache ignores.
    Full,
}

/// A Python source file.
pub fn is_python(path: &str) -> (r: bool)
    ensures
        r == ends_with(path@, ".py"@),
{
    let p = chars_of(path);
    let ext = chars_of(".py");
    has_suffix(p.as_slice(), ext.as_slice())
}

pub open spec fn script_extensions() -> Seq<Seq<char>> {
    seq![".ts"@, ".tsx"@, ".mts"@, ".cts"@, ".js"@, ".jsx"@, ".mjs"@, ".cjs"@]
}

/// A TypeScript or JavaScript source file; declaration files hold no code.
pub open spec fn script_path(path: Seq<char>) -> bool {
    (exists|i: int| 0 <= i < script_extensions().len() && ends_with(path, #[trigger] script_extensions()[i]))
        && !ends_with(path, ".d.ts"@)
}

pub fn is_script(path: &str) -> (r: bool)
    ensures
        r == script_path(path@),
{
    let p = chars_of(path);
    let exts = [".ts", ".tsx", ".mts", ".cts", ".js", ".jsx", ".mjs", ".cjs"];
    proof {
        assert(exts@.map_values(|e: &str| e@) =~= script_extensions());
    }
    let mut found = false;
    let mut i: usize = 0;
    while i < exts.len()
        invariant
            i <= exts@.len(),
            exts@.map_values(|e: &str| e@) == script_extensions(),
            p@ == path@,
            found == exists|k: int| 0 <= k < i && ends_with(path@, #[trigger] script_extensions()[k]),
        decreases exts@.len() - i,
    {
        let e = chars_of(exts[i]);
        proof {
            assert(script_extensions()[i as int] == exts@[i as int]@);
        }
        if has_suffix(p.as_slice(), e.as_slice()) {
            found = true;
        }
        i = i + 1;
    }
    let dts = chars_of(".d.ts");
    found && !has_suffix(p.as_slice(), dts.as_slice())
}

/// One page of a Cypher query's answer.
pub struct CypherPage {
    pub table: Table,
    pub row_count: usize,
}

/// What serde_json reads of the provider's JSON wrapper document.
pub enum WrapperJson {
    /// Not JSON at all; serde_json's message.
    NotJson(String),
    /// JSON, but not an object.
    NotObject,
    /// An object: its `markdown` string and its `row_count` unsigned integer,
    /// each `None` when absent or of another type.
    Object { markdown: Option<String>, row_count: Option<u64> },
}

/// What serde_json reads of a document and two of its object's members: a
/// function of the text and the member names alone.
pub uninterp spec fn wrapper_json(text: Seq<char>, text_key: Seq<char>, count_key: Seq<char>) -> WrapperJson;

/// `serde_json::from_str` into a `Value`, then the object's member
/// `text_key` (`Value::get`, `Value::as_str`) and `count_key`
/// (`Value::as_u64`). The reading itself is named, not restated.
#[verifier::external_body]
fn read_wrapper(text: &str, text_key: &str, count_key: &str) -> (r: WrapperJson)
    ensures
        r == wrapper_json(text@, text_key@, count_key@),
{
    match serde_json::from_str::<serde_json::Value>(text) {
        Err(error) => WrapperJson::NotJson(error.to_string()),
        Ok(serde_json::Value::Object(map)) => WrapperJson::Object {
            markdown: map.get(text_key).and_then(serde_json::Value::as_str).map(str::to_owned),
            row_count: map.get(count_key).and_then(serde_json::Value::as_u64),
        },
        Ok(_) => WrapperJson::NotObject,
    }
}

/// What GitNexus's wrapper document holds: its `markdown` table text and
/// its `row_count`.
pub open spec fn page_json(text: Seq<char>) -> WrapperJson {
    wrapper_json(text, "markdown"@, "row_count"@)
}

/// The detail of a compatibility error for the wrapper document, or `None`
/// when it holds a table of as many rows as it says.
pub open spec fn wrapper_problem(w: WrapperJson) -> Option<Seq<char>> {
    match w {
        WrapperJson::NotJson(e) => Some("stdout is not JSON: "@ + e@),
        WrapperJson::NotObject => Some("stdout is not a JSON object"@),
        WrapperJson::Object { markdown, row_count } => match markdown {
            None => Some("missing or non-string `markdown`"@),
            Some(m) => match row_count {
                None => Some("missing or nonnegative-integer `row_count`"@),
                Some(n) => if n > usize::MAX {
                    Some("row_count exceeds this platform's capacity"@)
                } else {
                    match table_of(m@) {
                        Err(te) => Some(markdown_table::table_error_text(te)),
                        Ok(t) => if t.1.len() != n {
                            Some("row_count is "@ + decimal_spec(n as nat) + ", but table contains "@
                                + decimal_spec(t.1.len()) + " data rows (truncation is unsupported)"@)
                        } else {
                            None
                        },
                    }
                },
            },
        },
    }
}

pub open spec fn compatibility_error(e: ProviderError, detail: Seq<char>) -> bool {
    e matches ProviderError::Compatibility(d) && d@ == detail
}

/// The table GitNexus's JSON wrapper holds, checked against its row count.
pub fn parse_wrapper(stdout: &str) -> (r: Result<CypherPage, ProviderError>)
    ensures
        match r {
            Ok(page) => wrapper_problem(page_json(stdout@)) is None && (page_json(stdout@) matches WrapperJson::Object { markdown: Some(m), row_count: Some(n) }
                && table_of(m@) == Ok::<(Seq<Seq<char>>, Seq<Seq<Seq<char>>>), markdown_table::TableError>((views(page.table.headers@), rows_view(page.table.rows@)))
                && page.row_count == n),
            Err(e) => wrapper_problem(page_json(stdout@)) matches Some(d) && compatibility_error(e, d),
        },
{
    page_of_wrapper(read_wrapper(stdout, "markdown", "row_count"))
}

/// The page a read wrapper document holds: its table, checked against its
/// row count.
pub fn page_of_wrapper(wrapper: WrapperJson) -> (r: Result<CypherPage, ProviderError>)
    ensures
        match r {
            Ok(page) => wrapper_problem(wrapper) is None && (wrapper matches WrapperJson::Object { markdown: Some(m), row_count: Some(n) }
                && table_of(m@) == Ok::<(Seq<Seq<char>>, Seq<Seq<Seq<char>>>), markdown_table::TableError>((views(page.table.headers@), rows_view(page.table.rows@)))
                && page.row_count == n),
            Err(e) => wrapper_problem(wrapper) matches Some(d) && compatibility_error(e, d),
        },
{
    match wrapper {
        WrapperJson::NotJson(error) => Err(compatibility(cat2("stdout is not JSON: ", error.as_str()).as_str())),
        WrapperJson::NotObject => Err(compatibility("stdout is not a JSON object")),
        WrapperJson::Object { markdown, row_count } => {
            let markdown = match markdown {
                Some(m) => m,
                None => {
                    return Err(compatibility("missing or non-string `markdown`"));
                },
            };
            let count = match row_count {
                Some(n) => n,
                None => {
                    return Err(compatibility("missing or nonnegative-integer `row_count`"));
                },
            };
            if count > usize::MAX as u64 {
                return Err(compatibility("row_count exceeds this platform's capacity"));
            }
            let row_count = count as usize;
            let table = markdown_table::parse(markdown.as_str())?;
            if table.rows.len() != row_count {
                let n = decimal(count as u128);
                let m = decimal(table.rows.len() as u128);
                let head = cat4("row_count is ", n.as_str(), ", but table contains ", m.as_str());
                proof {
                    assert(rows_view(table.rows@).len() == table.rows@.len());
                }
                return Err(compatibility(cat2(head.as_str(), " data rows (truncation is unsupported)").as_str()));
            }
            Ok(CypherPage { table, row_count })
        },
    }
}

/// A cell with a value: neither empty nor `null` in any case.
pub open spec fn present_spec(value: Seq<char>) -> bool {
    value.len() > 0 && !(value.len() == 4 && lower_code(value[0]) == 'n' as u32 && lower_code(value[1])
        == 'u' as u32 && lower_code(value[2]) == 'l' as u32 && lower_code(value[3]) == 'l' as u32)
}

pub fn present(value: &str) -> (r: bool)
    ensures
        r == present_spec(value@),
{
    let c = chars_of(value);
    if c.len() == 0 {
        return false;
    }
    !(c.len() == 4 && lower_code_exec(c[0]) == 'n' as u32 && lower_code_exec(c[1]) == 'u' as u32
        && lower_code_exec(c[2]) == 'l' as u32 && lower_code_exec(c[3]) == 'l' as u32)
}

/// Every file in the index, to tell unindexed files from files without
/// dependencies.
pub fn file_query(offset: usize, page_size: usize) -> (r: String)
    ensures
        r@ == "MATCH (f:File) RETURN f.filePath AS path ORDER BY path SKIP "@ + decimal_spec(offset as nat)
            + " LIMIT "@ + decimal_spec(page_size as nat),
{
    let o = decimal(offset as u128);
    let p = decimal(page_size as u128);
    cat4("MATCH (f:File) RETURN f.filePath AS path ORDER BY path SKIP ", o.as_str(), " LIMIT ", p.as_str())
}

/// `'kind', 'kind', ...`: the edge types as a Cypher list's items.
pub open spec fn quoted_list(kinds: Seq<Seq<char>>) -> Seq<char>
    decreases kinds.len(),
{
    if kinds.len() == 0 {
        Seq::<char>::empty()
    } else if kinds.len() == 1 {
        "'"@ + kinds[0] + "'"@
    } else {
        quoted_list(kinds.drop_last()) + ", '"@ + kinds.last() + "'"@
    }
}

pub open spec fn edge_query_text(kinds: Seq<Seq<char>>, offset: nat, page_size: nat) -> Seq<char> {
    "MATCH (a)-[r:CodeRelation]->(b) WHERE r.type IN ["@ + quoted_list(kinds)
        + "] AND a.filePath IS NOT NULL AND b.filePath IS NOT NULL AND a.filePath <> b.filePath RETURN a.filePath AS source, b.filePath AS target, r.type AS kind, r.reason AS reason, max(r.confidence) AS confidence ORDER BY source, target, kind, reason SKIP "@
        + decimal_spec(offset) + " LIMIT "@ + decimal_spec(page_size)
}

/// File-level relations of the given types. Symbol endpoints are lifted to
/// their files and grouped, so every row is unique and SKIP/LIMIT paging is
/// stable.
pub fn edge_query(edge_types: &[String], offset: usize, page_size: usize) -> (r: String)
    ensures
        r@ == edge_query_text(views(edge_types@), offset as nat, page_size as nat),
{
    let mut types = String::new();
    let mut i: usize = 0;
    proof {
        assert(views(edge_types@).take(0) =~= Seq::<Seq<char>>::empty());
    }
    while i < edge_types.len()
        invariant
            i <= edge_types@.len(),
            types@ == quoted_list(views(edge_types@).take(i as int)),
        decreases edge_types@.len() - i,
    {
        let ghost prev = views(edge_types@).take(i as int);
        proof {
            assert(views(edge_types@).take(i + 1).drop_last() =~= prev);
            assert(views(edge_types@).take(i + 1).last() == edge_types@[i as int]@);
        }
        if i == 0 {
            types = cat3("'", edge_types[i].as_str(), "'");
            proof {
                assert(views(edge_types@).take(1)[0] == edge_types@[0]@);
            }
        } else {
            types = cat4(types.as_str(), ", '", edge_types[i].as_str(), "'");
        }
        i = i + 1;
    }
    proof {
        assert(views(edge_types@).take(edge_types@.len() as int) =~= views(edge_types@));
    }
    let o = decimal(offset as u128);
    let p = decimal(page_size as u128);
    let head = cat3("MATCH (a)-[r:CodeRelation]->(b) WHERE r.type IN [", types.as_str(), "] AND a.filePath IS NOT NULL AND b.filePath IS NOT NULL AND a.filePath <> b.filePath RETURN a.filePath AS source, b.filePath AS target, r.type AS kind, r.reason AS reason, max(r.confidence) AS confidence ORDER BY source, target, kind, reason SKIP ");
    cat4(head.as_str(), o.as_str(), " LIMIT ", p.as_str())
}

/// The paths of a file page, with slashes for backslashes, or the first row
/// without a path.
pub open spec fn file_page_of(rows: Seq<Seq<Seq<char>>>, column: int, from: int) -> Result<Seq<Seq<char>>, Seq<char>>
    decreases rows.len() - from,
{
    if from >= rows.len() {
        Ok(Seq::<Seq<char>>::empty())
    } else if !present_spec(rows[from][column]) {
        Err("file row "@ + decimal_spec((from + 1) as nat) + " has an empty/null path"@)
    } else {
        match file_page_of(rows, column, from + 1) {
            Ok(rest) => Ok(seq![replace_char(rows[from][column], '\\', '/')] + rest),
            Err(e) => Err(e),
        }
    }
}

/// The index of the first `x` in `s`.
pub open spec fn first_index(s: Seq<Seq<char>>, x: Seq<char>) -> Option<int>
    decreases s.len(),
{
    if s.len() == 0 {
        None
    } else if s[0] == x {
        Some(0)
    } else {
        match first_index(s.drop_first(), x) {
            Some(i) => Some(i + 1),
            None => None,
        }
    }
}

proof fn lemma_first_index(s: Seq<Seq<char>>, x: Seq<char>, i: int)
    requires
        0 <= i <= s.len(),
        forall|k: int| 0 <= k < i ==> s[k] != x,
        i < s.len() ==> s[i] == x,
    ensures
        first_index(s, x) == (if i < s.len() { Some(i) } else { None::<int> }),
    decreases s.len(),
{
    if s.len() > 0 && i > 0 {
        assert forall|k: int| 0 <= k < i - 1 implies s.drop_first()[k] != x by {
            assert(s.drop_first()[k] == s[k + 1]);
        }
        lemma_first_index(s.drop_first(), x, i - 1);
    }
}

/// The paths a file page holds, or the detail of its compatibility error.
pub open spec fn file_page_result(stdout: Seq<char>) -> Result<Seq<Seq<char>>, Seq<char>> {
    match wrapper_problem(page_json(stdout)) {
        Some(d) => Err(d),
        None => match first_index(headers_view_of(stdout), "path"@) {
            None => Err("required column `"@ + "path"@ + "` is missing"@),
            Some(col) => file_page_of(rows_view_of(stdout), col, 0),
        },
    }
}

/// The files of one page of the file query.
pub fn parse_file_page(stdout: &str) -> (r: Result<Vec<String>, ProviderError>)
    ensures
        match r {
            Ok(paths) => file_page_result(stdout@) == Ok::<Seq<Seq<char>>, Seq<char>>(views(paths@)),
            Err(e) => file_page_result(stdout@) matches Err(d) && compatibility_error(e, d),
        },
{
    let page = parse_wrapper(stdout)?;
    let ghost rows = rows_view(page.table.rows@);
    let ghost hs = views(page.table.headers@);
    proof {
        let m = page_json(stdout@)->Object_markdown->Some_0;
        lemma_table_width(m@);
        assert(rows == rows_view_of(stdout@));
        assert(hs == headers_view_of(stdout@));
    }
    let path = match page.table.column("path") {
        Ok(p) => {
            proof {
                assert forall|k: int| 0 <= k < p implies hs[k] != "path"@ by {
                    assert(hs[k] == page.table.headers@[k]@);
                }
                lemma_first_index(hs, "path"@, p as int);
            }
            p
        },
        Err(e) => {
            proof {
                assert forall|k: int| 0 <= k < hs.len() implies hs[k] != "path"@ by {
                    assert(hs[k] == page.table.headers@[k]@);
                }
                lemma_first_index(hs, "path"@, hs.len() as int);
            }
            return Err(e);
        },
    };
    let mut out: Vec<String> = Vec::new();
    let mut k: usize = 0;
    proof {
        assert(views(out@) + file_page_of(rows, path as int, 0)->Ok_0 =~= file_page_of(rows, path as int, 0)->Ok_0);
    }
    while k < page.table.rows.len()
        invariant
            k <= page.table.rows@.len(),
            rows == rows_view(page.table.rows@),
            file_page_result(stdout@) == file_page_of(rows, path as int, 0),
            path < page.table.headers@.len(),
            forall|j: int| 0 <= j < rows.len() ==> (#[trigger] rows[j]).len() == page.table.headers@.len(),
            file_page_of(rows, path as int, 0) == (match file_page_of(rows, path as int, k as int) {
                Ok(rest) => Ok(views(out@) + rest),
                Err(e) => Err::<Seq<Seq<char>>, Seq<char>>(e),
            }),
        decreases page.table.rows@.len() - k,
    {
        proof {
            assert(rows[k as int].len() == page.table.headers@.len());
            assert(rows[k as int] == views(page.table.rows@[k as int]@));
            assert(rows[k as int][path as int] == page.table.rows@[k as int]@[path as int]@);
        }
        let cell = page.table.rows[k][path].as_str();
        if !present(cell) {
            let n = decimal((k + 1) as u128);
            return Err(compatibility(cat3("file row ", n.as_str(), " has an empty/null path").as_str()));
        }
        let c = chars_of(cell);
        let fixed = replace_chars(c.as_slice(), '\\', '/');
        let ghost before = views(out@);
        out.push(string_of(fixed.as_slice()));
        proof {
            assert(views(out@) =~= before.push(replace_char(rows[k as int][path as int], '\\', '/')));
            match file_page_of(rows, path as int, k + 1) {
                Ok(rest) => {
                    assert(before + (seq![replace_char(rows[k as int][path as int], '\\', '/')] + rest) =~= views(out@) + rest);
                },
                Err(e) => {},
            }
        }
        k = k + 1;
    }
    proof {
        assert(views(out@) + Seq::<Seq<char>>::empty() =~= views(out@));
    }
    Ok(out)
}

/// The headers of the table in a wrapper document.
pub open spec fn headers_view_of(stdout: Seq<char>) -> Seq<Seq<char>> {
    match page_json(stdout) {
        WrapperJson::Object { markdown: Some(m), .. } => match table_of(m@) {
            Ok(t) => t.0,
            Err(_) => Seq::<Seq<char>>::empty(),
        },
        _ => Seq::<Seq<char>>::empty(),
    }
}

/// The rows of the table in a wrapper document.
pub open spec fn rows_view_of(stdout: Seq<char>) -> Seq<Seq<Seq<char>>> {
    match page_json(stdout) {
        WrapperJson::Object { markdown: Some(m), .. } => match table_of(m@) {
            Ok(t) => t.1,
            Err(_) => Seq::<Seq<Seq<char>>>::empty(),
        },
        _ => Seq::<Seq<Seq<char>>>::empty(),
    }
}


/// What `String::from_utf8_lossy` gives for `bytes`.
pub uninterp spec fn lossy_decode(bytes: Seq<u8>) -> Seq<char>;

/// `String::from_utf8_lossy`: the text of valid UTF-8 as it is; invalid
/// sequences become U+FFFD, which is named rather than restated.
#[verifier::external_body]
fn lossy_text(bytes: &[u8]) -> (r: String)
    ensures
        r@ == lossy_decode(bytes@),
        vstd::utf8::valid_utf8(bytes@) ==> r@ == vstd::utf8::decode_utf8(bytes@),
{
    String::from_utf8_lossy(bytes).into_owned()
}

pub open spec fn failure_text(stdout: Seq<u8>, stderr: Seq<u8>) -> Seq<char> {
    let detail = if stderr.len() == 0 { stdout } else { stderr };
    let t = crate::text::trim(lossy_decode(detail));
    if t.len() <= 2000 {
        t
    } else {
        t.take(2000)
    }
}

/// What a failed command said: its error output, or its output when that is
/// empty, trimmed and cut to 2000 characters.
pub fn failure_detail(stdout: &[u8], stderr: &[u8]) -> (r: String)
    ensures
        r@ == failure_text(stdout@, stderr@),
{
    let detail = if stderr.len() == 0 { stdout } else { stderr };
    let text = lossy_text(detail);
    let chars = chars_of(text.as_str());
    let trimmed = crate::text::trim_chars(chars.as_slice());
    if trimmed.len() <= 2000 {
        string_of(trimmed.as_slice())
    } else {
        let cut = crate::text::slice_chars(trimmed.as_slice(), 0, 2000);
        let r = string_of(cut.as_slice());
        proof {
            assert(r@ =~= crate::text::trim(text@).take(2000));
        }
        r
    }
}


/// What reading a present confidence cell as an `f64` gave: no number, or
/// the bits of one.
pub enum ConfidenceReading {
    Invalid,
    Number(u64),
}

/// Where the columns of an edge page stand.
pub struct EdgeColumns {
    pub source: usize,
    pub target: usize,
    pub kind: Option<usize>,
    pub confidence: Option<usize>,
    pub reason: Option<usize>,
}

pub open spec fn opt_index(i: Option<int>) -> Option<usize> {
    match i {
        Some(k) => Some(k as usize),
        None => None,
    }
}

/// The columns of an edge page: `source` and `target` are required, the
/// others optional; each is the first column with its header.
pub open spec fn edge_columns_of(headers: Seq<Seq<char>>) -> Result<EdgeColumns, Seq<char>> {
    match first_index(headers, "source"@) {
        None => Err("required column `source` is missing"@),
        Some(s) => match first_index(headers, "target"@) {
            None => Err("required column `target` is missing"@),
            Some(t) => Ok(EdgeColumns {
                source: s as usize,
                target: t as usize,
                kind: opt_index(first_index(headers, "kind"@)),
                confidence: opt_index(first_index(headers, "confidence"@)),
                reason: opt_index(first_index(headers, "reason"@)),
            }),
        },
    }
}

fn find_column(table: &Table, header: &str) -> (r: Option<usize>)
    ensures
        opt_index(first_index(views(table.headers@), header@)) == r,
        r matches Some(i) ==> i < table.headers@.len(),
{
    let ghost hs = views(table.headers@);
    let r = table.optional_column(header);
    proof {
        match r {
            Some(p) => {
                assert forall|k: int| 0 <= k < p implies hs[k] != header@ by {
                    assert(hs[k] == table.headers@[k]@);
                }
                assert(hs[p as int] == table.headers@[p as int]@);
                lemma_first_index(hs, header@, p as int);
            },
            None => {
                assert forall|k: int| 0 <= k < hs.len() implies hs[k] != header@ by {
                    assert(hs[k] == table.headers@[k]@);
                }
                lemma_first_index(hs, header@, hs.len() as int);
            },
        }
    }
    r
}

/// The columns of an edge page, or the first required one that is missing.
pub fn edge_columns(table: &Table) -> (r: Result<EdgeColumns, ProviderError>)
    ensures
        match r {
            Ok(c) => edge_columns_of(views(table.headers@)) == Ok::<EdgeColumns, Seq<char>>(c),
            Err(e) => edge_columns_of(views(table.headers@)) matches Err(d) && compatibility_error(e, d),
        },
{
    let source = match find_column(table, "source") {
        Some(i) => i,
        None => {
            return Err(compatibility("required column `source` is missing"));
        },
    };
    let target = match find_column(table, "target") {
        Some(i) => i,
        None => {
            return Err(compatibility("required column `target` is missing"));
        },
    };
    let kind = find_column(table, "kind");
    let confidence = find_column(table, "confidence");
    let reason = find_column(table, "reason");
    Ok(EdgeColumns { source, target, kind, confidence, reason })
}

/// What an edge holds, as values.
pub open spec fn code_edge_view(e: CodeEdge) -> (Seq<char>, Seq<char>, Seq<char>, Option<u64>, Option<Seq<char>>) {
    (e.from_file@, e.to_file@, e.kind@, e.confidence, opt_view(e.reason))
}

pub open spec fn code_edge_views(s: Seq<CodeEdge>) -> Seq<(Seq<char>, Seq<char>, Seq<char>, Option<u64>, Option<Seq<char>>)> {
    s.map_values(|e: CodeEdge| code_edge_view(e))
}

/// The row has a confidence cell with a value.
pub open spec fn confidence_present(row: Seq<Seq<char>>, cols: EdgeColumns) -> bool {
    cols.confidence matches Some(c) && present_spec(row[c as int])
}

/// The edge of row `n` (counting from 1), or what is wrong with it: an
/// absent source or target, then a confidence that is no finite number,
/// then an absent kind where the page has a kind column.
pub open spec fn row_edge(row: Seq<Seq<char>>, cols: EdgeColumns, reading: Option<ConfidenceReading>, n: nat)
    -> Result<(Seq<char>, Seq<char>, Seq<char>, Option<u64>, Option<Seq<char>>), Seq<char>> {
    let head = "row "@ + decimal_spec(n);
    if !present_spec(row[cols.source as int]) || !present_spec(row[cols.target as int]) {
        Err(head + " has empty/null source or target"@)
    } else if reading matches Some(ConfidenceReading::Invalid) {
        Err(head + " has invalid confidence `"@ + row[cols.confidence->0 as int] + "`"@)
    } else if reading matches Some(ConfidenceReading::Number(b)) && !finite_bits(b) {
        Err(head + " has non-finite confidence"@)
    } else if cols.kind matches Some(k) && !present_spec(row[k as int]) {
        Err(head + " has an empty/null relation kind"@)
    } else {
        Ok((
            replace_char(row[cols.source as int], '\\', '/'),
            replace_char(row[cols.target as int], '\\', '/'),
            match cols.kind {
                Some(k) => row[k as int],
                None => "IMPORTS"@,
            },
            match reading {
                Some(ConfidenceReading::Number(b)) => Some(b),
                _ => None,
            },
            match cols.reason {
                Some(r) => if present_spec(row[r as int]) { Some(row[r as int]) } else { None },
                None => None,
            },
        ))
    }
}

/// The edges of the rows from `from` on, or the first row's problem.
pub open spec fn edges_of_rows(rows: Seq<Seq<Seq<char>>>, cols: EdgeColumns, readings: Seq<Option<ConfidenceReading>>, from: int)
    -> Result<Seq<(Seq<char>, Seq<char>, Seq<char>, Option<u64>, Option<Seq<char>>)>, Seq<char>>
    decreases rows.len() - from,
{
    if from < 0 || from >= rows.len() {
        Ok(Seq::empty())
    } else {
        match row_edge(rows[from], cols, readings[from], (from + 1) as nat) {
            Err(e) => Err(e),
            Ok(x) => match edges_of_rows(rows, cols, readings, from + 1) {
                Ok(rest) => Ok(seq![x] + rest),
                Err(e) => Err(e),
            },
        }
    }
}

fn copy_cell(table: &Table, k: usize, c: usize) -> (r: String)
    requires
        k < table.rows@.len(),
        c < table.rows@[k as int]@.len(),
    ensures
        r@ == table.rows@[k as int]@[c as int]@,
{
    table.rows[k][c].clone()
}

fn slashed(s: &str) -> (r: String)
    ensures
        r@ == replace_char(s@, '\\', '/'),
{
    let c = chars_of(s);
    let fixed = replace_chars(c.as_slice(), '\\', '/');
    string_of(fixed.as_slice())
}

/// The edges of an edge page's rows, given its columns and, for each row
/// whose confidence cell has a value, what reading it as a number gave.
pub fn edges_of_page(table: &Table, cols: &EdgeColumns, readings: &Vec<Option<ConfidenceReading>>) -> (r: Result<Vec<CodeEdge>, ProviderError>)
    requires
        edge_columns_of(views(table.headers@)) == Ok::<EdgeColumns, Seq<char>>(*cols),
        forall|k: int| 0 <= k < table.rows@.len() ==> (#[trigger] table.rows@[k])@.len() == table.headers@.len(),
        readings@.len() == table.rows@.len(),
        forall|k: int| 0 <= k < readings@.len() ==> ((#[trigger] readings@[k]) is Some <==> confidence_present(views(table.rows@[k]@), *cols)),
    ensures
        match r {
            Ok(es) => edges_of_rows(rows_view(table.rows@), *cols, readings@, 0) == Ok::<Seq<(Seq<char>, Seq<char>, Seq<char>, Option<u64>, Option<Seq<char>>)>, Seq<char>>(code_edge_views(es@)),
            Err(e) => edges_of_rows(rows_view(table.rows@), *cols, readings@, 0) matches Err(d) && compatibility_error(e, d),
        },
{
    let ghost rows = rows_view(table.rows@);
    let ghost hs = views(table.headers@);
    proof {
        let s = first_index(hs, "source"@)->0;
        lemma_first_index_bound(hs, "source"@);
        lemma_first_index_bound(hs, "target"@);
        lemma_first_index_bound(hs, "kind"@);
        lemma_first_index_bound(hs, "confidence"@);
        lemma_first_index_bound(hs, "reason"@);
    }
    let mut out: Vec<CodeEdge> = Vec::new();
    let mut k: usize = 0;
    proof {
        match edges_of_rows(rows, *cols, readings@, 0) {
            Ok(all) => {
                assert(code_edge_views(out@) + all =~= all);
            },
            Err(_) => {},
        }
    }
    while k < table.rows.len()
        invariant
            k <= table.rows@.len(),
            rows == rows_view(table.rows@),
            hs == views(table.headers@),
            readings@.len() == table.rows@.len(),
            edge_columns_of(hs) == Ok::<EdgeColumns, Seq<char>>(*cols),
            cols.source < hs.len() && cols.target < hs.len(),
            cols.kind matches Some(i) ==> i < hs.len(),
            cols.confidence matches Some(i) ==> i < hs.len(),
            cols.reason matches Some(i) ==> i < hs.len(),
            forall|j: int| 0 <= j < table.rows@.len() ==> (#[trigger] table.rows@[j])@.len() == table.headers@.len(),
            forall|j: int| 0 <= j < readings@.len() ==> ((#[trigger] readings@[j]) is Some <==> confidence_present(views(table.rows@[j]@), *cols)),
            edges_of_rows(rows, *cols, readings@, 0) == (match edges_of_rows(rows, *cols, readings@, k as int) {
                Ok(rest) => Ok(code_edge_views(out@) + rest),
                Err(e) => Err::<Seq<(Seq<char>, Seq<char>, Seq<char>, Option<u64>, Option<Seq<char>>)>, Seq<char>>(e),
            }),
        decreases table.rows@.len() - k,
    {
        let ghost row = rows[k as int];
        proof {
            assert(row == views(table.rows@[k as int]@));
            assert(hs.len() == table.headers@.len());
            assert(row.len() == hs.len());
            assert forall|c: int| 0 <= c < row.len() implies row[c] == table.rows@[k as int]@[c]@ by {}
        }
        let n = decimal((k + 1) as u128);
        let source = table.rows[k][cols.source].as_str();
        let target = table.rows[k][cols.target].as_str();
        if !present(source) || !present(target) {
            return Err(compatibility(cat2(cat2("row ", n.as_str()).as_str(), " has empty/null source or target").as_str()));
        }
        let confidence = match &readings[k] {
            None => None,
            Some(ConfidenceReading::Invalid) => {
                let c = cols.confidence.unwrap();
                let cell = table.rows[k][c].as_str();
                return Err(compatibility(cat4(cat2("row ", n.as_str()).as_str(), " has invalid confidence `", cell, "`").as_str()));
            },
            Some(ConfidenceReading::Number(b)) => {
                if (*b / 0x10_0000_0000_0000) % 0x800 == 0x7ff {
                    return Err(compatibility(cat2(cat2("row ", n.as_str()).as_str(), " has non-finite confidence").as_str()));
                }
                Some(*b)
            },
        };
        let kind = match cols.kind {
            Some(c) => {
                if !present(table.rows[k][c].as_str()) {
                    return Err(compatibility(cat2(cat2("row ", n.as_str()).as_str(), " has an empty/null relation kind").as_str()));
                }
                copy_cell(table, k, c)
            },
            None => String::from_str("IMPORTS"),
        };
        let reason = match cols.reason {
            Some(c) => if present(table.rows[k][c].as_str()) {
                Some(copy_cell(table, k, c))
            } else {
                None
            },
            None => None,
        };
        let edge = CodeEdge { from_file: slashed(source), to_file: slashed(target), kind, confidence, reason };
        let ghost x = code_edge_view(edge);
        proof {
            assert(row_edge(row, *cols, readings@[k as int], (k + 1) as nat) == Ok::<(Seq<char>, Seq<char>, Seq<char>, Option<u64>, Option<Seq<char>>), Seq<char>>(x));
        }
        let ghost before = code_edge_views(out@);
        out.push(edge);
        proof {
            assert(code_edge_views(out@) =~= before.push(x));
            match edges_of_rows(rows, *cols, readings@, k + 1) {
                Ok(rest) => {
                    assert(before + (seq![x] + rest) =~= code_edge_views(out@) + rest);
                },
                Err(e) => {},
            }
        }
        k = k + 1;
    }
    proof {
        assert(code_edge_views(out@) + Seq::empty() =~= code_edge_views(out@));
    }
    Ok(out)
}

proof fn lemma_first_index_bound(s: Seq<Seq<char>>, x: Seq<char>)
    ensures
        first_index(s, x) matches Some(i) ==> 0 <= i < s.len(),
    decreases s.len(),
{
    if s.len() > 0 && s[0] != x {
        lemma_first_index_bound(s.drop_first(), x);
    }
}


/// A file page holds one path per row, each the row's path cell with
/// slashes for backslashes, exactly when every path cell has a value.
pub proof fn lemma_file_page(rows: Seq<Seq<Seq<char>>>, column: int, from: int)
    requires
        0 <= from <= rows.len(),
    ensures
        file_page_of(rows, column, from) is Ok <==> forall|i: int| from <= i < rows.len() ==> present_spec(#[trigger] rows[i][column]),
        file_page_of(rows, column, from) matches Ok(v) ==> v.len() == rows.len() - from
            && forall|i: int| 0 <= i < v.len() ==> #[trigger] v[i] == replace_char(rows[from + i][column], '\\', '/'),
    decreases rows.len() - from,
{
    if from < rows.len() {
        lemma_file_page(rows, column, from + 1);
        if present_spec(rows[from][column]) {
            if file_page_of(rows, column, from + 1) is Ok {
                let rest = file_page_of(rows, column, from + 1)->Ok_0;
                let v = seq![replace_char(rows[from][column], '\\', '/')] + rest;
                assert forall|i: int| 0 <= i < v.len() implies #[trigger] v[i] == replace_char(rows[from + i][column], '\\', '/') by {
                    if i > 0 {
                        assert(v[i] == rest[i - 1]);
                    }
                }
            }
        }
    }
}


/// The file page of a wrapper document that holds its table and a `path`
/// column: a path for every row, each the row's path cell with slashes for
/// backslashes, exactly when no path cell is empty or `null`; as many as
/// the document's `row_count`.
pub proof fn lemma_file_page_law(stdout: Seq<char>, c: int)
    requires
        wrapper_problem(page_json(stdout)) is None,
        first_index(headers_view_of(stdout), "path"@) == Some(c),
    ensures
        file_page_result(stdout) is Ok <==> forall|i: int| 0 <= i < rows_view_of(stdout).len() ==> present_spec(#[trigger] rows_view_of(stdout)[i][c]),
        file_page_result(stdout) matches Ok(v) ==> (page_json(stdout) matches WrapperJson::Object { row_count: Some(n), .. } && v.len() == n)
            && forall|i: int| 0 <= i < v.len() ==> #[trigger] v[i] == replace_char(rows_view_of(stdout)[i][c], '\\', '/'),
{
    lemma_file_page(rows_view_of(stdout), c, 0);
}


/// An edge page read up to its rows: the wrapper's table, checked against
/// its row count, and where its columns stand. Reading each present
/// confidence cell as a number is left to the caller, which hands the
/// readings to `edges_of_page`.
pub fn edge_page(stdout: &str) -> (r: Result<(CypherPage, EdgeColumns), ProviderError>)
    ensures
        match r {
            Ok((page, cols)) => wrapper_problem(page_json(stdout@)) is None
                && rows_view(page.table.rows@) == rows_view_of(stdout@)
                && views(page.table.headers@) == headers_view_of(stdout@)
                && edge_columns_of(headers_view_of(stdout@)) == Ok::<EdgeColumns, Seq<char>>(cols),
            Err(e) => match wrapper_problem(page_json(stdout@)) {
                Some(d) => compatibility_error(e, d),
                None => match edge_columns_of(headers_view_of(stdout@)) {
                    Err(d) => compatibility_error(e, d),
                    Ok(_) => false,
                },
            },
        },
{
    let page = parse_wrapper(stdout)?;
    proof {
        let m = page_json(stdout@)->Object_markdown->Some_0;
        lemma_table_width(m@);
    }
    let cols = edge_columns(&page.table)?;
    Ok((page, cols))
}

} // verus!
