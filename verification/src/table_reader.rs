use vstd::prelude::*;
use vstd::string::StrSliceExecFns;
use vstd::string::StringExecFns;

verus! {

/// Failure of the field splitter for one input line.
#[derive(Debug)]
pub enum SplitLineError {
    InvalidText { linenum: usize, text: String },
}

/// What csv's reader yields for one comma-separated line: the fields of its
/// first record (none for an empty line), or nothing when the text is not
/// valid CSV.
pub uninterp spec fn csv_fields_of(s: Seq<char>) -> Option<Seq<Seq<char>>>;

/// Relies on csv::ReaderBuilder and csv::Reader::records, configured with a
/// comma delimiter and no header row: the first record's fields, an empty
/// list when the line holds no record, or a failure for invalid text.
#[verifier::external_body]
fn csv_split(line: &str) -> (r: Option<Vec<String>>)
    ensures
        match csv_fields_of(line@) {
            Some(cells) => r matches Some(v) && v@.map_values(|c: String| c@) == cells,
            None => r is None,
        },
{
    let mut rdr = csv::ReaderBuilder::new().delimiter(b',').has_headers(false).from_reader(
        line.as_bytes(),
    );
    if let Some(result) = rdr.records().next() {
        if let Ok(record) = result {
            Some(record.iter().map(|item| item.to_string()).collect())
        } else {
            None
        }
    } else {
        Some(vec![])
    }
}

/// Splits one line as CSV; the error carries the 1-based line number and the
/// offending text, exactly when csv rejects the line.
pub fn split_csv_line(li: usize, line: &str) -> (r: Result<Vec<String>, SplitLineError>)
    requires
        li < usize::MAX,
    ensures
        match csv_fields_of(line@) {
            Some(cells) => r matches Ok(v) && v@.map_values(|c: String| c@) == cells,
            None => r matches Err(e) && (e matches SplitLineError::InvalidText {
                linenum,
                text,
            } && linenum == li + 1 && text@ == line@),
        },
{
    match csv_split(line) {
        Some(cells) => Ok(cells),
        None => Err(
            SplitLineError::InvalidText { linenum: li + 1, text: String::from_str(line) },
        ),
    }
}

/// The cells of a line split on tab characters: always at least one cell,
/// and one more cell than there are tabs.
pub open spec fn split_tab(s: Seq<char>) -> Seq<Seq<char>>
    decreases s.len(),
{
    if s.len() == 0 {
        seq![Seq::<char>::empty()]
    } else if s[0] == '\t' {
        seq![Seq::<char>::empty()] + split_tab(s.drop_first())
    } else {
        let rest = split_tab(s.drop_first());
        seq![seq![s[0]] + rest[0]] + rest.drop_first()
    }
}

pub proof fn lemma_split_tab_nonempty(s: Seq<char>)
    ensures
        split_tab(s).len() >= 1,
    decreases s.len(),
{
    if s.len() > 0 {
        lemma_split_tab_nonempty(s.drop_first());
    }
}

/// `cells` with `prefix` glued onto the front of its first cell.
spec fn prepend_first(prefix: Seq<char>, cells: Seq<Seq<char>>) -> Seq<Seq<char>> {
    seq![prefix + cells[0]] + cells.drop_first()
}

/// Splits one line on tab characters; never fails.
pub fn split_tsv_line(li: usize, line: &str) -> (r: Result<Vec<String>, SplitLineError>)
    ensures
        r matches Ok(v) && v@.map_values(|c: String| c@) == split_tab(line@),
{
    let len = line.unicode_len();
    let mut cells: Vec<String> = Vec::new();
    let mut start: usize = 0;
    let mut i: usize = 0;
    proof {
        lemma_split_tab_nonempty(line@);
        assert(line@.skip(0) =~= line@);
        assert(prepend_first(line@.subrange(0, 0), split_tab(line@)) =~= split_tab(line@));
    }
    while i < len
        invariant
            0 <= start <= i <= len,
            len == line@.len(),
            split_tab(line@) =~= cells@.map_values(|c: String| c@) + prepend_first(
                line@.subrange(start as int, i as int),
                split_tab(line@.skip(i as int)),
            ),
        decreases len - i,
    {
        let c = line.get_char(i);
        let ghost tail = line@.skip(i as int);
        let ghost tail1 = line@.skip(i + 1);
        proof {
            lemma_split_tab_nonempty(tail);
            lemma_split_tab_nonempty(tail1);
            assert(tail.len() > 0);
            assert(tail[0] == line@[i as int]);
            assert(tail.drop_first() =~= tail1);
        }
        if c == '\t' {
            let cell = line.substring_char(start, i);
            cells.push(String::from_str(cell));
            proof {
                let cur = line@.subrange(start as int, i as int);
                assert(split_tab(tail) =~= seq![Seq::<char>::empty()] + split_tab(tail1));
                assert(prepend_first(cur, split_tab(tail)) =~= seq![cur] + split_tab(tail1));
                assert(prepend_first(line@.subrange(i + 1, i + 1), split_tab(tail1))
                    =~= split_tab(tail1));
                assert(cells@.map_values(|x: String| x@) =~= cells@.drop_last().map_values(
                    |x: String| x@,
                ).push(cur));
                assert(split_tab(line@) =~= cells@.map_values(|x: String| x@) + prepend_first(
                    line@.subrange(i + 1, i + 1),
                    split_tab(tail1),
                ));
            }
            start = i + 1;
        } else {
            proof {
                let cur = line@.subrange(start as int, i as int);
                let rest = split_tab(tail1);
                assert(split_tab(tail) =~= seq![seq![line@[i as int]] + rest[0]]
                    + rest.drop_first());
                assert(prepend_first(cur, split_tab(tail))[0] =~= cur + (seq![
                    line@[i as int],
                ] + rest[0]));
                assert(cur + (seq![line@[i as int]] + rest[0]) =~= line@.subrange(
                    start as int,
                    i + 1,
                ) + rest[0]);
                assert(prepend_first(cur, split_tab(tail)) =~= prepend_first(
                    line@.subrange(start as int, i + 1),
                    rest,
                ));
            }
        }
        i = i + 1;
    }
    let cell = line.substring_char(start, len);
    cells.push(String::from_str(cell));
    proof {
        let cur = line@.subrange(start as int, len as int);
        assert(line@.skip(len as int) =~= Seq::<char>::empty());
        assert(split_tab(line@.skip(len as int)) =~= seq![Seq::<char>::empty()]);
        assert(prepend_first(cur, seq![Seq::<char>::empty()]) =~= seq![cur]);
        assert(cells@.map_values(|x: String| x@) =~= cells@.drop_last().map_values(
            |x: String| x@,
        ).push(cur));
        assert(cells@.map_values(|x: String| x@) =~= split_tab(line@));
    }
    Ok(cells)
}

} // verus!
