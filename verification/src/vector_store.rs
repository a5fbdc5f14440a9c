//! Records of the embedded vector store and the text of its search query.

use vstd::prelude::*;
use vstd::string::StringExecFns;
use crate::metrics::count_char;
use crate::strutil::{decimal, digit_char, push_decimal, string_views};

verus! {

/// Metadata attached to each stored vector.
#[derive(Debug, Clone)]
pub struct ChunkMetadata {
    pub workspace_id: String,
    pub document_id: String,
    pub document_name: String,
    pub chunk_index: usize,
    pub page_number: Option<u32>,
    pub file_type: String,
    pub created_at: String,
}

/// Filters of a vector search.
#[derive(Debug, Clone)]
pub struct SearchFilters {
    /// Only these documents.
    pub document_ids: Option<Vec<String>>,
    /// Only these file types (pdf, docx, txt, ...).
    pub file_types: Option<Vec<String>>,
    /// Only pages in this inclusive range.
    pub page_range: Option<(u32, u32)>,
    /// Creation date range (ISO 8601 timestamps).
    pub date_range: Option<(String, String)>,
}

impl Default for SearchFilters {
    fn default() -> (f: Self)
        ensures
            f.document_ids is None,
            f.file_types is None,
            f.page_range is None,
            f.date_range is None,
    {
        SearchFilters { document_ids: None, file_types: None, page_range: None, date_range: None }
    }
}

/// Statistics of a workspace's vectors.
#[derive(Debug, Clone)]
pub struct CollectionStats {
    pub vectors_count: u64,
    pub points_count: u64,
}

/// Statistics from the stored vector count.
pub fn collection_stats(count: i64) -> (s: CollectionStats)
    ensures
        s.vectors_count == count as u64,
        s.points_count == count as u64,
{
    CollectionStats { vectors_count: count as u64, points_count: count as u64 }
}

/// The search query without filters.
pub open spec fn search_base_sql() -> Seq<char> {
    "SELECT v.id, v.embedding, c.chunk_text, "@
        + "c.document_id, d.filename, d.file_type, "@
        + "c.page_number, c.chunk_index, v.created_at\n"@
        + "             FROM vector_embeddings v\n"@
        + "             JOIN document_chunks c "@
        + "ON v.id = c.vector_id\n"@
        + "             JOIN documents d "@
        + "ON c.document_id = d.id\n"@
        + "             WHERE v.workspace_id = "@
        + "?"@
}

/// `n` placeholders separated by commas (nothing for none).
pub open spec fn placeholders(n: nat) -> Seq<char>
    decreases n,
{
    if n == 0 {
        Seq::empty()
    } else if n == 1 {
        seq!['?']
    } else {
        placeholders((n - 1) as nat) + seq![',', '?']
    }
}

/// The condition for a list filter, empty without the filter; an empty
/// list gives `IN ()`, which SQLite reads as matching no row.
pub open spec fn in_clause(prefix: Seq<char>, values: Option<Vec<String>>) -> Seq<char> {
    match values {
        Some(v) => prefix + placeholders(v@.len()) + seq![')'],
        None => Seq::empty(),
    }
}

/// The condition for a page range, empty without it.
pub open spec fn page_clause(range: Option<(u32, u32)>) -> Seq<char> {
    match range {
        Some((lo, hi)) => " AND c.page_number BETWEEN "@ + decimal(lo as nat) + " AND "@ + decimal(hi as nat),
        None => Seq::empty(),
    }
}

/// The condition for a creation-date range (both ends bound as values),
/// empty without it.
pub open spec fn date_clause(range: Option<(String, String)>) -> Seq<char> {
    match range {
        Some(_) => " AND v.created_at BETWEEN ? AND ?"@,
        None => Seq::empty(),
    }
}

/// The text of a search query: the base query, then the document filter,
/// the file-type filter, the page range and the date range, each where it
/// is set.
pub open spec fn search_sql_text(filters: Option<SearchFilters>) -> Seq<char> {
    match filters {
        Some(f) => search_base_sql()
            + in_clause(" AND v.document_id IN ("@, f.document_ids)
            + in_clause(" AND d.file_type IN ("@, f.file_types)
            + page_clause(f.page_range)
            + date_clause(f.date_range),
        None => search_base_sql(),
    }
}

fn push_placeholders(s: &mut String, n: usize)
    ensures
        final(s)@ == old(s)@ + placeholders(n as nat),
{
    if n == 0 {
        assert(old(s)@ + placeholders(0) =~= old(s)@);
        return;
    }
    s.append("?");
    let mut i: usize = 1;
    proof {
        reveal_strlit("?");
        assert(old(s)@ + seq!['?'] =~= old(s)@ + placeholders(1));
    }
    while i < n
        invariant
            1 <= i <= n,
            s@ == old(s)@ + placeholders(i as nat),
        decreases n - i,
    {
        let ghost before = s@;
        s.append(",?");
        proof {
            reveal_strlit(",?");
            assert(before + ",?"@ =~= old(s)@ + placeholders((i + 1) as nat));
        }
        i = i + 1;
    }
}

fn push_in_clause(s: &mut String, prefix: &str, values: &Option<Vec<String>>)
    ensures
        final(s)@ == old(s)@ + in_clause(prefix@, *values),
{
    match values {
        Some(v) => {
            s.append(prefix);
            push_placeholders(s, v.len());
            s.append(")");
            proof {
                reveal_strlit(")");
                assert(s@ =~= old(s)@ + in_clause(prefix@, *values));
            }
        },
        None => {
            assert(s@ =~= old(s)@ + in_clause(prefix@, *values));
        },
    }
}

/// The SQL text of a vector search with the given filters.
pub fn search_sql(filters: &Option<SearchFilters>) -> (q: String)
    ensures
        q@ == search_sql_text(*filters),
{
    let mut q = "SELECT v.id, v.embedding, c.chunk_text, ".to_owned();
    q.append("c.document_id, d.filename, d.file_type, ");
    q.append("c.page_number, c.chunk_index, v.created_at\n");
    q.append("             FROM vector_embeddings v\n");
    q.append("             JOIN document_chunks c ");
    q.append("ON v.id = c.vector_id\n");
    q.append("             JOIN documents d ");
    q.append("ON c.document_id = d.id\n");
    q.append("             WHERE v.workspace_id = ");
    q.append("?");
    if let Some(f) = filters {
        push_in_clause(&mut q, " AND v.document_id IN (", &f.document_ids);
        push_in_clause(&mut q, " AND d.file_type IN (", &f.file_types);
        let ghost before = q@;
        if let Some((lo, hi)) = f.page_range {
            q.append(" AND c.page_number BETWEEN ");
            push_decimal(&mut q, lo as u128);
            q.append(" AND ");
            push_decimal(&mut q, hi as u128);
        }
        assert(q@ =~= before + page_clause(f.page_range));
        let ghost before_dates = q@;
        if f.date_range.is_some() {
            q.append(" AND v.created_at BETWEEN ? AND ?");
        }
        assert(q@ =~= before_dates + date_clause(f.date_range));
        assert(q@ =~= search_sql_text(*filters));
    }
    q
}

/// The values bound to the search query's placeholders, in order: the
/// workspace, then the document ids, then the file types, then the two
/// ends of the date range.
pub open spec fn search_bind_values(workspace_id: Seq<char>, filters: Option<SearchFilters>) -> Seq<Seq<char>> {
    match filters {
        Some(f) => seq![workspace_id]
            + (match f.document_ids { Some(v) => string_views(v@), None => Seq::empty() })
            + (match f.file_types { Some(v) => string_views(v@), None => Seq::empty() })
            + (match f.date_range { Some((from, to)) => seq![from@, to@], None => Seq::empty() }),
        None => seq![workspace_id],
    }
}

fn push_all(out: &mut Vec<String>, values: &Option<Vec<String>>)
    ensures
        string_views(final(out)@) == string_views(old(out)@) + match *values {
            Some(v) => string_views(v@),
            None => Seq::empty(),
        },
{
    if let Some(v) = values {
        let mut i: usize = 0;
        while i < v.len()
            invariant
                i <= v@.len(),
                string_views(out@) == string_views(old(out)@) + string_views(v@).take(i as int),
            decreases v@.len() - i,
        {
            let ghost before = out@;
            out.push(v[i].clone());
            proof {
                assert(string_views(out@) =~= string_views(before).push(v@[i as int]@));
                assert(string_views(v@).take(i + 1) =~= string_views(v@).take(i as int).push(v@[i as int]@));
                assert(string_views(out@) =~= string_views(old(out)@) + string_views(v@).take(i + 1));
            }
            i = i + 1;
        }
        assert(string_views(v@).take(v@.len() as int) =~= string_views(v@));
    } else {
        assert(string_views(out@) =~= string_views(old(out)@) + Seq::<Seq<char>>::empty());
    }
}

/// The values to bind to the search query, in placeholder order.
pub fn search_binds(workspace_id: &str, filters: &Option<SearchFilters>) -> (v: Vec<String>)
    ensures
        string_views(v@) == search_bind_values(workspace_id@, *filters),
{
    let mut v: Vec<String> = Vec::new();
    v.push(workspace_id.to_owned());
    assert(string_views(v@) =~= seq![workspace_id@]);
    if let Some(f) = filters {
        push_all(&mut v, &f.document_ids);
        push_all(&mut v, &f.file_types);
        let ghost before = v@;
        if let Some((from, to)) = &f.date_range {
            v.push(from.clone());
            v.push(to.clone());
            assert(string_views(v@) =~= string_views(before) + seq![from@, to@]);
        } else {
            assert(string_views(v@) =~= string_views(before) + Seq::<Seq<char>>::empty());
        }
    }
    v
}

proof fn lemma_count_concat(a: Seq<char>, b: Seq<char>, c: char)
    ensures
        count_char(a + b, c) == count_char(a, c) + count_char(b, c),
    decreases b.len(),
{
    if b.len() == 0 {
        assert(a + b =~= a);
    } else {
        lemma_count_concat(a, b.drop_last(), c);
        assert((a + b).drop_last() =~= a + b.drop_last());
    }
}

proof fn lemma_count_single(x: char, c: char)
    ensures
        count_char(seq![x], c) == if x == c { 1nat } else { 0nat },
{
    assert(seq![x].drop_last() =~= Seq::<char>::empty());
    assert(count_char(Seq::<char>::empty(), c) == 0);
}

proof fn lemma_placeholders_count(n: nat)
    ensures
        count_char(placeholders(n), '?') == n,
    decreases n,
{
    if n > 1 {
        lemma_placeholders_count((n - 1) as nat);
        lemma_count_concat(placeholders((n - 1) as nat), seq![',', '?'], '?');
        lemma_count_concat(seq![','], seq!['?'], '?');
        assert(seq![','] + seq!['?'] =~= seq![',', '?']);
        lemma_count_single(',', '?');
        lemma_count_single('?', '?');
    } else if n == 1 {
        lemma_count_single('?', '?');
    }
}

proof fn lemma_decimal_no_marks(n: nat)
    ensures
        count_char(decimal(n), '?') == 0,
    decreases n,
{
    if n >= 10 {
        lemma_decimal_no_marks(n / 10);
        assert(decimal(n) =~= decimal(n / 10) + seq![digit_char(n % 10)]);
        lemma_count_concat(decimal(n / 10), seq![digit_char(n % 10)], '?');
        lemma_count_single(digit_char(n % 10), '?');
    } else {
        lemma_count_single(digit_char(n), '?');
    }
}

proof fn lemma_base_piece_0()
    ensures
        count_char("SELECT v.id, v.embedding, c.chunk_text, "@, '?') == 0,
{
    reveal_strlit("SELECT v.id, v.embedding, c.chunk_text, ");
    reveal_with_fuel(count_char, 42);
}

proof fn lemma_base_piece_1()
    ensures
        count_char("c.document_id, d.filename, d.file_type, "@, '?') == 0,
{
    reveal_strlit("c.document_id, d.filename, d.file_type, ");
    reveal_with_fuel(count_char, 42);
}

proof fn lemma_base_piece_2()
    ensures
        count_char("c.page_number, c.chunk_index, v.created_at\n"@, '?') == 0,
{
    reveal_strlit("c.page_number, c.chunk_index, v.created_at\n");
    reveal_with_fuel(count_char, 45);
}

proof fn lemma_base_piece_3()
    ensures
        count_char("             FROM vector_embeddings v\n"@, '?') == 0,
{
    reveal_strlit("             FROM vector_embeddings v\n");
    reveal_with_fuel(count_char, 40);
}

proof fn lemma_base_piece_4()
    ensures
        count_char("             JOIN document_chunks c "@, '?') == 0,
{
    reveal_strlit("             JOIN document_chunks c ");
    reveal_with_fuel(count_char, 38);
}

proof fn lemma_base_piece_5()
    ensures
        count_char("ON v.id = c.vector_id\n"@, '?') == 0,
{
    reveal_strlit("ON v.id = c.vector_id\n");
    reveal_with_fuel(count_char, 24);
}

proof fn lemma_base_piece_6()
    ensures
        count_char("             JOIN documents d "@, '?') == 0,
{
    reveal_strlit("             JOIN documents d ");
    reveal_with_fuel(count_char, 40);
}

proof fn lemma_base_piece_7()
    ensures
        count_char("ON c.document_id = d.id\n"@, '?') == 0,
{
    reveal_strlit("ON c.document_id = d.id\n");
    reveal_with_fuel(count_char, 26);
}

proof fn lemma_base_piece_8()
    ensures
        count_char("             WHERE v.workspace_id = "@, '?') == 0,
{
    reveal_strlit("             WHERE v.workspace_id = ");
    reveal_with_fuel(count_char, 38);
}

proof fn lemma_clause_texts()
    ensures
        count_char(" AND v.document_id IN ("@, '?') == 0,
        count_char(" AND d.file_type IN ("@, '?') == 0,
        count_char(seq![')'], '?') == 0,
        count_char(" AND c.page_number BETWEEN "@, '?') == 0,
        count_char(" AND "@, '?') == 0,
        count_char(" AND v.created_at BETWEEN ? AND ?"@, '?') == 2,
        count_char(Seq::<char>::empty(), '?') == 0,
{
    reveal_strlit(" AND v.created_at BETWEEN ? AND ?");
    reveal_strlit(" AND v.document_id IN (");
    reveal_strlit(" AND d.file_type IN (");
    reveal_strlit(" AND c.page_number BETWEEN ");
    reveal_strlit(" AND ");
    reveal_with_fuel(count_char, 40);
    assert(seq![')'].drop_last() =~= Seq::<char>::empty());
}

proof fn lemma_base_count()
    ensures
        count_char(search_base_sql(), '?') == 1,
{
    lemma_base_piece_0();
    lemma_base_piece_1();
    lemma_base_piece_2();
    lemma_base_piece_3();
    lemma_base_piece_4();
    lemma_base_piece_5();
    lemma_base_piece_6();
    lemma_base_piece_7();
    lemma_base_piece_8();
    lemma_count_concat("SELECT v.id, v.embedding, c.chunk_text, "@, "c.document_id, d.filename, d.file_type, "@, '?');
    lemma_count_concat("SELECT v.id, v.embedding, c.chunk_text, "@ + "c.document_id, d.filename, d.file_type, "@, "c.page_number, c.chunk_index, v.created_at\n"@, '?');
    lemma_count_concat("SELECT v.id, v.embedding, c.chunk_text, "@ + "c.document_id, d.filename, d.file_type, "@ + "c.page_number, c.chunk_index, v.created_at\n"@, "             FROM vector_embeddings v\n"@, '?');
    lemma_count_concat("SELECT v.id, v.embedding, c.chunk_text, "@ + "c.document_id, d.filename, d.file_type, "@ + "c.page_number, c.chunk_index, v.created_at\n"@ + "             FROM vector_embeddings v\n"@, "             JOIN document_chunks c "@, '?');
    lemma_count_concat("SELECT v.id, v.embedding, c.chunk_text, "@ + "c.document_id, d.filename, d.file_type, "@ + "c.page_number, c.chunk_index, v.created_at\n"@ + "             FROM vector_embeddings v\n"@ + "             JOIN document_chunks c "@, "ON v.id = c.vector_id\n"@, '?');
    lemma_count_concat("SELECT v.id, v.embedding, c.chunk_text, "@ + "c.document_id, d.filename, d.file_type, "@ + "c.page_number, c.chunk_index, v.created_at\n"@ + "             FROM vector_embeddings v\n"@ + "             JOIN document_chunks c "@ + "ON v.id = c.vector_id\n"@, "             JOIN documents d "@, '?');
    lemma_count_concat("SELECT v.id, v.embedding, c.chunk_text, "@ + "c.document_id, d.filename, d.file_type, "@ + "c.page_number, c.chunk_index, v.created_at\n"@ + "             FROM vector_embeddings v\n"@ + "             JOIN document_chunks c "@ + "ON v.id = c.vector_id\n"@ + "             JOIN documents d "@, "ON c.document_id = d.id\n"@, '?');
    lemma_count_concat("SELECT v.id, v.embedding, c.chunk_text, "@ + "c.document_id, d.filename, d.file_type, "@ + "c.page_number, c.chunk_index, v.created_at\n"@ + "             FROM vector_embeddings v\n"@ + "             JOIN document_chunks c "@ + "ON v.id = c.vector_id\n"@ + "             JOIN documents d "@ + "ON c.document_id = d.id\n"@, "             WHERE v.workspace_id = "@, '?');
    lemma_count_concat("SELECT v.id, v.embedding, c.chunk_text, "@ + "c.document_id, d.filename, d.file_type, "@ + "c.page_number, c.chunk_index, v.created_at\n"@ + "             FROM vector_embeddings v\n"@ + "             JOIN document_chunks c "@ + "ON v.id = c.vector_id\n"@ + "             JOIN documents d "@ + "ON c.document_id = d.id\n"@ + "             WHERE v.workspace_id = "@, "?"@, '?');
    reveal_strlit("?");
    assert("?"@ =~= seq!['?']);
    lemma_count_single('?', '?');
}

/// The search query has exactly one placeholder per bound value, so the
/// values bound by `search_binds` fill the text of `search_sql`.
pub proof fn search_placeholder_law(workspace_id: Seq<char>, filters: Option<SearchFilters>)
    ensures
        count_char(search_sql_text(filters), '?') == search_bind_values(workspace_id, filters).len(),
{
    lemma_base_count();
    lemma_clause_texts();
    match filters {
        None => {},
        Some(f) => {
            let ids = in_clause(" AND v.document_id IN ("@, f.document_ids);
            let types = in_clause(" AND d.file_type IN ("@, f.file_types);
            let pages = page_clause(f.page_range);
            lemma_count_concat(search_base_sql() + ids + types + pages, date_clause(f.date_range), '?');
            lemma_count_concat(search_base_sql() + ids + types, pages, '?');
            lemma_count_concat(search_base_sql() + ids, types, '?');
            lemma_count_concat(search_base_sql(), ids, '?');
            match f.document_ids {
                Some(v) => {
                    lemma_placeholders_count(v@.len());
                    lemma_count_concat(" AND v.document_id IN ("@ + placeholders(v@.len()), seq![')'], '?');
                    lemma_count_concat(" AND v.document_id IN ("@, placeholders(v@.len()), '?');
                },
                None => {},
            }
            match f.file_types {
                Some(v) => {
                    lemma_placeholders_count(v@.len());
                    lemma_count_concat(" AND d.file_type IN ("@ + placeholders(v@.len()), seq![')'], '?');
                    lemma_count_concat(" AND d.file_type IN ("@, placeholders(v@.len()), '?');
                },
                None => {},
            }
            match f.page_range {
                Some((lo, hi)) => {
                    lemma_decimal_no_marks(lo as nat);
                    lemma_decimal_no_marks(hi as nat);
                    let a = " AND c.page_number BETWEEN "@;
                    lemma_count_concat(a + decimal(lo as nat) + " AND "@, decimal(hi as nat), '?');
                    lemma_count_concat(a + decimal(lo as nat), " AND "@, '?');
                    lemma_count_concat(a, decimal(lo as nat), '?');
                },
                None => {},
            }
        },
    }
}

} // verus!
