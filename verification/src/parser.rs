use crate::decimal::{decimal_of, parse_decimal, Decimal, DecimalModel};
use crate::error::{ErrorModel, Field, PipelineError};
use crate::json::{
    entry_shapes, json_document, json_shape, lists, member, object_entries, parse_json, text_of,
    Json,
};
use vstd::prelude::*;

verus! {

/// One day of the response, its five numbers read exactly.
#[derive(Clone, Debug, PartialEq, Eq)]
pub struct ParsedBar {
    pub date: String,
    pub open: Decimal,
    pub high: Decimal,
    pub low: Decimal,
    pub close: Decimal,
    pub volume: Decimal,
}

/// What a `ParsedBar` stands for.
pub struct ParsedBarModel {
    pub date: Seq<char>,
    pub open: DecimalModel,
    pub high: DecimalModel,
    pub low: DecimalModel,
    pub close: DecimalModel,
    pub volume: DecimalModel,
}

impl View for ParsedBar {
    type V = ParsedBarModel;

    open spec fn view(&self) -> ParsedBarModel {
        ParsedBarModel {
            date: self.date@,
            open: self.open@,
            high: self.high@,
            low: self.low@,
            close: self.close@,
            volume: self.volume@,
        }
    }
}

impl ParsedBar {
    pub open spec fn wf(&self) -> bool {
        &&& self.open.wf()
        &&& self.high.wf()
        &&& self.low.wf()
        &&& self.close.wf()
        &&& self.volume.wf()
    }
}

/// The models of a sequence of parsed bars, in order.
pub open spec fn parsed_models(bars: Seq<ParsedBar>) -> Seq<ParsedBarModel> {
    bars.map_values(|b: ParsedBar| b@)
}

/// The key under which the response holds the series.
pub open spec fn series_key() -> Seq<char> {
    "Time Series (Daily)"@
}

/// The provider's label of each field.
pub open spec fn label(field: Field) -> Seq<char> {
    match field {
        Field::Open => "1. open"@,
        Field::High => "2. high"@,
        Field::Low => "3. low"@,
        Field::Close => "4. close"@,
        Field::Volume => "5. volume"@,
    }
}

/// The series of a document: the object under the series key of a document
/// that is an object itself.
pub open spec fn series_of(doc: Json) -> Option<Map<Seq<char>, Json>> {
    match doc {
        Json::Object(top) => if top.contains_key(series_key()) {
            match top[series_key()] {
                Json::Object(series) => Some(series),
                _ => None,
            }
        } else {
            None
        },
        _ => None,
    }
}

/// One field of one day: its value, the shape error where the day is no
/// object or holds no string under the field's label, the number error where
/// that string is no numeral.
pub open spec fn field_outcome(date: Seq<char>, bar: Json, field: Field, body: Seq<char>) -> Result<
    DecimalModel,
    ErrorModel,
> {
    match bar {
        Json::Object(members) => if members.contains_key(label(field)) {
            match members[label(field)] {
                Json::Text(text) => match decimal_of(text) {
                    Some(d) => Ok(d),
                    None => Err(ErrorModel::MalformedNumber { date, field, text }),
                },
                _ => Err(ErrorModel::UnexpectedResponseShape { body }),
            }
        } else {
            Err(ErrorModel::UnexpectedResponseShape { body })
        },
        _ => Err(ErrorModel::UnexpectedResponseShape { body }),
    }
}

/// One day: its bar, or the error of the first field that has one, in the
/// order open, high, low, close, volume.
pub open spec fn bar_outcome(date: Seq<char>, bar: Json, body: Seq<char>) -> Result<
    ParsedBarModel,
    ErrorModel,
> {
    match field_outcome(date, bar, Field::Open, body) {
        Err(e) => Err(e),
        Ok(open) => match field_outcome(date, bar, Field::High, body) {
            Err(e) => Err(e),
            Ok(high) => match field_outcome(date, bar, Field::Low, body) {
                Err(e) => Err(e),
                Ok(low) => match field_outcome(date, bar, Field::Close, body) {
                    Err(e) => Err(e),
                    Ok(close) => match field_outcome(date, bar, Field::Volume, body) {
                        Err(e) => Err(e),
                        Ok(volume) => Ok(ParsedBarModel { date, open, high, low, close, volume }),
                    },
                },
            },
        },
    }
}

/// The days in the order given: their bars, or the error of the first day
/// that has one.
pub open spec fn entries_outcome(entries: Seq<(Seq<char>, Json)>, body: Seq<char>) -> Result<
    Seq<ParsedBarModel>,
    ErrorModel,
>
    decreases entries.len(),
{
    if entries.len() == 0 {
        Ok(Seq::empty())
    } else {
        match entries_outcome(entries.drop_last(), body) {
            Err(e) => Err(e),
            Ok(bars) => match bar_outcome(entries.last().0, entries.last().1, body) {
                Err(e) => Err(e),
                Ok(bar) => Ok(bars.push(bar)),
            },
        }
    }
}

/// No two days share a date.
pub open spec fn distinct_days(bars: Seq<ParsedBarModel>) -> bool {
    forall|i: int, j: int| 0 <= i < j < bars.len() ==> bars[i].date != bars[j].date
}

/// A result by its models.
pub open spec fn outcome(r: Result<Vec<ParsedBar>, PipelineError>) -> Result<
    Seq<ParsedBarModel>,
    ErrorModel,
> {
    match r {
        Ok(bars) => Ok(parsed_models(bars@)),
        Err(e) => Err(e@),
    }
}

/// The provider's label of `field`.
pub fn label_of(field: Field) -> (r: &'static str)
    ensures
        r@ == label(field),
{
    match field {
        Field::Open => "1. open",
        Field::High => "2. high",
        Field::Low => "3. low",
        Field::Close => "4. close",
        Field::Volume => "5. volume",
    }
}

/// Reads one field of the day `date` from `bar`. `body` is the whole
/// response, kept for the shape error.
pub fn read_field(date: &str, bar: &serde_json::Value, field: Field, body: &str) -> (r: Result<
    Decimal,
    PipelineError,
>)
    ensures
        match r {
            Ok(d) => d.wf() && field_outcome(date@, json_shape(*bar), field, body@) == Ok::<
                DecimalModel,
                ErrorModel,
            >(d@),
            Err(e) => field_outcome(date@, json_shape(*bar), field, body@) == Err::<
                DecimalModel,
                ErrorModel,
            >(e@),
        },
{
    let text = match member(bar, label_of(field)) {
        Some(m) => match text_of(m) {
            Some(t) => t,
            None => {
                return Err(PipelineError::UnexpectedResponseShape { body: body.to_owned() });
            },
        },
        None => {
            return Err(PipelineError::UnexpectedResponseShape { body: body.to_owned() });
        },
    };
    match parse_decimal(text) {
        Ok(d) => Ok(d),
        Err(e) => Err(
            PipelineError::MalformedNumber { date: date.to_owned(), field, text: e.text },
        ),
    }
}

/// Reads the day `date` from `bar`.
pub fn read_bar(date: &str, bar: &serde_json::Value, body: &str) -> (r: Result<
    ParsedBar,
    PipelineError,
>)
    ensures
        match r {
            Ok(b) => b.wf() && bar_outcome(date@, json_shape(*bar), body@) == Ok::<
                ParsedBarModel,
                ErrorModel,
            >(b@),
            Err(e) => bar_outcome(date@, json_shape(*bar), body@) == Err::<
                ParsedBarModel,
                ErrorModel,
            >(e@),
        },
{
    let open = match read_field(date, bar, Field::Open, body) {
        Ok(d) => d,
        Err(e) => {
            return Err(e);
        },
    };
    let high = match read_field(date, bar, Field::High, body) {
        Ok(d) => d,
        Err(e) => {
            return Err(e);
        },
    };
    let low = match read_field(date, bar, Field::Low, body) {
        Ok(d) => d,
        Err(e) => {
            return Err(e);
        },
    };
    let close = match read_field(date, bar, Field::Close, body) {
        Ok(d) => d,
        Err(e) => {
            return Err(e);
        },
    };
    let volume = match read_field(date, bar, Field::Volume, body) {
        Ok(d) => d,
        Err(e) => {
            return Err(e);
        },
    };
    Ok(ParsedBar { date: date.to_owned(), open, high, low, close, volume })
}

/// Reads the days in the order given and stops at the first that fails.
pub fn read_bars(entries: &Vec<(String, &serde_json::Value)>, body: &str) -> (r: Result<
    Vec<ParsedBar>,
    PipelineError,
>)
    ensures
        outcome(r) == entries_outcome(entry_shapes(entries@), body@),
        r matches Ok(bars) ==> forall|i: int| 0 <= i < bars@.len() ==> (#[trigger] bars@[i]).wf(),
{
    let mut out: Vec<ParsedBar> = Vec::new();
    let ghost all = entry_shapes(entries@);
    let mut i: usize = 0;
    assert(parsed_models(out@) =~= Seq::<ParsedBarModel>::empty());
    while i < entries.len()
        invariant
            i <= entries.len(),
            all == entry_shapes(entries@),
            entries_outcome(all.take(i as int), body@) == Ok::<Seq<ParsedBarModel>, ErrorModel>(
                parsed_models(out@),
            ),
            forall|j: int| 0 <= j < out@.len() ==> (#[trigger] out@[j]).wf(),
        decreases entries.len() - i,
    {
        proof {
            assert(all.take(i + 1).drop_last() =~= all.take(i as int));
            assert(all.take(i + 1).last() == all[i as int]);
        }
        match read_bar(entries[i].0.as_str(), entries[i].1, body) {
            Ok(bar) => {
                assert(parsed_models(out@.push(bar)) =~= parsed_models(out@).push(bar@));
                out.push(bar);
            },
            Err(e) => {
                proof {
                    lemma_error_stays(all, i + 1, body@);
                }
                return Err(e);
            },
        }
        i += 1;
    }
    assert(all.take(i as int) =~= all);
    Ok(out)
}

/// Once a prefix of the days has failed, the whole has failed with the same error.
proof fn lemma_error_stays(entries: Seq<(Seq<char>, Json)>, n: int, body: Seq<char>)
    requires
        0 <= n <= entries.len(),
        entries_outcome(entries.take(n), body) is Err,
    ensures
        entries_outcome(entries, body) == entries_outcome(entries.take(n), body),
    decreases entries.len() - n,
{
    if n == entries.len() {
        assert(entries.take(n) =~= entries);
    } else {
        assert(entries.take(n + 1).drop_last() =~= entries.take(n));
        lemma_error_stays(entries, n + 1, body);
    }
}

/// Where every day reads, there is one bar for each, under its date.
proof fn lemma_outcome_dates(entries: Seq<(Seq<char>, Json)>, body: Seq<char>)
    requires
        entries_outcome(entries, body) is Ok,
    ensures
        entries_outcome(entries, body)->Ok_0.len() == entries.len(),
        forall|i: int|
            0 <= i < entries.len() ==> (#[trigger] entries_outcome(entries, body)->Ok_0[i]).date
                == entries[i].0,
    decreases entries.len(),
{
    if entries.len() > 0 {
        lemma_outcome_dates(entries.drop_last(), body);
    }
}

/// Reads a response body: the days of its series with their numbers, in the
/// order in which the document's object hands them out.
///
/// A body that is not JSON is an `InvalidResponseFormat`. A document that is
/// no object, or holds no object under the series key, is an
/// `UnexpectedResponseShape` with the body. Otherwise the result is that of
/// reading the series' members, each once, in some order: all the bars, or
/// the error of the first day that has one. No two bars share a date.
pub fn parse_time_series(body: &str) -> (r: Result<Vec<ParsedBar>, PipelineError>)
    ensures
        match json_document(body@) {
            None => r matches Err(e) && e@ == ErrorModel::InvalidResponseFormat,
            Some(doc) => match series_of(doc) {
                None => r matches Err(e) && e@ == (ErrorModel::UnexpectedResponseShape {
                    body: body@,
                }),
                Some(series) => exists|entries: Seq<(Seq<char>, Json)>|
                    lists(entries, series) && outcome(r) == #[trigger] entries_outcome(
                        entries,
                        body@,
                    ),
            },
        },
        r matches Ok(bars) ==> (distinct_days(parsed_models(bars@)) && forall|i: int|
            0 <= i < bars@.len() ==> (#[trigger] bars@[i]).wf()),
{
    let doc = match parse_json(body) {
        Ok(v) => v,
        Err(_) => {
            return Err(PipelineError::InvalidResponseFormat);
        },
    };
    let series = match member(&doc, "Time Series (Daily)") {
        Some(s) => s,
        None => {
            return Err(PipelineError::UnexpectedResponseShape { body: body.to_owned() });
        },
    };
    let entries = match object_entries(series) {
        Some(es) => es,
        None => {
            return Err(PipelineError::UnexpectedResponseShape { body: body.to_owned() });
        },
    };
    let r = read_bars(&entries, body);
    proof {
        let shapes = entry_shapes(entries@);
        if r is Ok {
            lemma_outcome_dates(shapes, body@);
        }
    }
    r
}

} // verus!
