//! Hourly weather steps read from CSV: `hour,t_ext_c`, with column aliases.

use vstd::prelude::*;

use crate::csvtable::{
    csv_table, field, fields_view, read_csv, row_view, spec_field, table_view, CsvTable, TableView,
};
use crate::decimal::{float_literal_ok, is_float_literal, parse_u8, spec_parse_u8};
use crate::demand_profiles::{column, first_column};
use crate::import_error::{error_view, Column, ImportError};
use crate::magnitude::{finite_literal, is_finite_literal};
use crate::text::chars_of;

verus! {

/// One hourly step: the hour of the day and the outdoor temperature in °C, kept as the
/// literal read (one that `f64::from_str` reads as a finite number).
#[derive(Debug, PartialEq, Eq)]
pub struct WeatherStep<S> {
    pub hour: u8,
    pub t_ext_c: S,
}

pub open spec fn step_view(w: WeatherStep<String>) -> WeatherStep<Seq<char>> {
    WeatherStep { hour: w.hour, t_ext_c: w.t_ext_c@ }
}

pub open spec fn steps_view(v: Seq<WeatherStep<String>>) -> Seq<WeatherStep<Seq<char>>> {
    v.map_values(|w: WeatherStep<String>| step_view(w))
}

/// The hour and temperature columns of the header row.
pub open spec fn weather_columns(headers: Seq<Seq<char>>) -> Result<(usize, usize), Column> {
    match (first_column(headers, Column::Hour), first_column(headers, Column::TExt)) {
        (None, _) => Err(Column::Hour),
        (Some(_), None) => Err(Column::TExt),
        (Some(h), Some(t)) => Ok((h, t)),
    }
}

/// The step of one row, given the hours of the rows before it.
pub open spec fn weather_row(cols: (usize, usize), row: Seq<Seq<char>>, seen: Seq<u8>) -> Result<
    WeatherStep<Seq<char>>,
    ImportError<Seq<char>>,
> {
    match spec_field(row, cols.0 as int) {
        None => Err(ImportError::MissingField { column: Column::Hour }),
        Some(ht) => match spec_parse_u8(ht) {
            None => Err(ImportError::InvalidNumber { column: Column::Hour, text: ht }),
            Some(hour) => if hour > 23 {
                Err(ImportError::InvalidHour { hour })
            } else if seen.contains(hour) {
                Err(ImportError::DuplicateHour { hour })
            } else {
                match spec_field(row, cols.1 as int) {
                    None => Err(ImportError::MissingField { column: Column::TExt }),
                    Some(tt) => if !is_float_literal(tt) {
                        Err(ImportError::InvalidNumber { column: Column::TExt, text: tt })
                    } else if !is_finite_literal(tt) {
                        Err(ImportError::NonFiniteTemperature { hour })
                    } else {
                        Ok(WeatherStep { hour, t_ext_c: tt })
                    },
                }
            },
        },
    }
}

/// The steps of the first `n` rows, or the first error met.
pub open spec fn weather_rows(cols: (usize, usize), rows: Seq<Result<Seq<Seq<char>>, Seq<char>>>, n: int) -> Result<
    Seq<WeatherStep<Seq<char>>>,
    ImportError<Seq<char>>,
>
    decreases n,
{
    if n <= 0 {
        Ok(Seq::empty())
    } else {
        match weather_rows(cols, rows, n - 1) {
            Err(e) => Err(e),
            Ok(acc) => match rows[n - 1] {
                Err(m) => Err(ImportError::Csv { message: m }),
                Ok(row) => match weather_row(cols, row, acc.map_values(|w: WeatherStep<Seq<char>>| w.hour)) {
                    Err(e) => Err(e),
                    Ok(w) => Ok(acc.push(w)),
                },
            },
        }
    }
}

/// What `parse_weather_csv` answers for a table read from CSV.
pub open spec fn spec_weather(t: TableView) -> Result<Seq<WeatherStep<Seq<char>>>, ImportError<Seq<char>>> {
    match t.0 {
        Err(m) => Err(ImportError::Csv { message: m }),
        Ok(headers) => match weather_columns(headers) {
            Err(c) => Err(ImportError::MissingColumn { column: c }),
            Ok(cols) => match weather_rows(cols, t.1, t.1.len() as int) {
                Err(e) => Err(e),
                Ok(steps) => if steps.len() == 0 {
                    Err(ImportError::NoRows)
                } else {
                    Ok(steps)
                },
            },
        },
    }
}

proof fn lemma_weather_error_stays(cols: (usize, usize), rows: Seq<Result<Seq<Seq<char>>, Seq<char>>>, n: int, m: int)
    requires
        0 <= n <= m,
        weather_rows(cols, rows, n) is Err,
    ensures
        weather_rows(cols, rows, m) == weather_rows(cols, rows, n),
    decreases m - n,
{
    if m > n {
        lemma_weather_error_stays(cols, rows, n, m - 1);
    }
}

fn weather_columns_of(headers: &Vec<String>) -> (r: Result<(usize, usize), Column>)
    ensures
        r == weather_columns(fields_view(*headers)),
{
    let h = match column(headers, Column::Hour) {
        Some(i) => i,
        None => return Err(Column::Hour),
    };
    let t = match column(headers, Column::TExt) {
        Some(i) => i,
        None => return Err(Column::TExt),
    };
    Ok((h, t))
}

fn hour_seen(seen: &Vec<WeatherStep<String>>, hour: u8) -> (r: bool)
    ensures
        r == steps_view(seen@).map_values(|w: WeatherStep<Seq<char>>| w.hour).contains(hour),
{
    let ghost hours = steps_view(seen@).map_values(|w: WeatherStep<Seq<char>>| w.hour);
    let mut i: usize = 0;
    while i < seen.len()
        invariant
            hours == steps_view(seen@).map_values(|w: WeatherStep<Seq<char>>| w.hour),
            i <= seen@.len(),
            forall|j: int| 0 <= j < i ==> hours[j] != hour,
        decreases seen@.len() - i,
    {
        if seen[i].hour == hour {
            assert(hours[i as int] == hour);
            return true;
        }
        i = i + 1;
    }
    false
}

fn parse_weather_row(cols: (usize, usize), row: &Vec<String>, seen: &Vec<WeatherStep<String>>) -> (r: Result<
    WeatherStep<String>,
    ImportError<String>,
>)
    ensures
        match r {
            Ok(w) => weather_row(cols, fields_view(*row), steps_view(seen@).map_values(|w: WeatherStep<Seq<char>>| w.hour))
                == Ok::<WeatherStep<Seq<char>>, ImportError<Seq<char>>>(step_view(w)),
            Err(e) => weather_row(cols, fields_view(*row), steps_view(seen@).map_values(|w: WeatherStep<Seq<char>>| w.hour))
                == Err::<WeatherStep<Seq<char>>, ImportError<Seq<char>>>(error_view(e)),
        },
{
    let ht = match field(row, cols.0) {
        None => return Err(ImportError::MissingField { column: Column::Hour }),
        Some(t) => t,
    };
    let hv = chars_of(ht.as_str());
    let hour = match parse_u8(&hv) {
        None => return Err(ImportError::InvalidNumber { column: Column::Hour, text: ht }),
        Some(h) => h,
    };
    if hour > 23 {
        return Err(ImportError::InvalidHour { hour });
    }
    if hour_seen(seen, hour) {
        return Err(ImportError::DuplicateHour { hour });
    }
    let tt = match field(row, cols.1) {
        None => return Err(ImportError::MissingField { column: Column::TExt }),
        Some(t) => t,
    };
    let tv = chars_of(tt.as_str());
    if !float_literal_ok(&tv) {
        return Err(ImportError::InvalidNumber { column: Column::TExt, text: tt });
    }
    if !finite_literal(&tv) {
        return Err(ImportError::NonFiniteTemperature { hour });
    }
    Ok(WeatherStep { hour, t_ext_c: tt })
}

/// Weather steps of a table read from CSV: the header row must name an hour and a
/// temperature column; each row needs an hour from 0 to 23 not seen before and a finite
/// temperature; at least one row is needed.
pub fn weather_from_table(table: &CsvTable) -> (r: Result<Vec<WeatherStep<String>>, ImportError<String>>)
    ensures
        match r {
            Ok(v) => spec_weather(table_view(*table)) == Ok::<Seq<WeatherStep<Seq<char>>>, ImportError<Seq<char>>>(steps_view(v@)),
            Err(e) => spec_weather(table_view(*table)) == Err::<Seq<WeatherStep<Seq<char>>>, ImportError<Seq<char>>>(error_view(e)),
        },
{
    let headers = match &table.headers {
        Err(m) => return Err(ImportError::Csv { message: m.clone() }),
        Ok(h) => h,
    };
    let cols = match weather_columns_of(headers) {
        Err(c) => return Err(ImportError::MissingColumn { column: c }),
        Ok(c) => c,
    };
    let ghost tv = table_view(*table);
    let mut out: Vec<WeatherStep<String>> = Vec::new();
    assert(steps_view(out@) =~= Seq::<WeatherStep<Seq<char>>>::empty());
    let mut i: usize = 0;
    while i < table.rows.len()
        invariant
            tv == table_view(*table),
            tv.0 == Ok::<Seq<Seq<char>>, Seq<char>>(fields_view(*headers)),
            weather_columns(fields_view(*headers)) == Ok::<(usize, usize), Column>(cols),
            i <= table.rows@.len(),
            weather_rows(cols, tv.1, i as int) == Ok::<Seq<WeatherStep<Seq<char>>>, ImportError<Seq<char>>>(steps_view(out@)),
        decreases table.rows@.len() - i,
    {
        assert(tv.1[i as int] == row_view(table.rows@[i as int]));
        let row = match &table.rows[i] {
            Err(m) => {
                let e = ImportError::Csv { message: m.clone() };
                proof {
                    lemma_weather_error_stays(cols, tv.1, i + 1, tv.1.len() as int);
                }
                return Err(e);
            },
            Ok(r) => r,
        };
        match parse_weather_row(cols, row, &out) {
            Err(e) => {
                proof {
                    lemma_weather_error_stays(cols, tv.1, i + 1, tv.1.len() as int);
                }
                return Err(e);
            },
            Ok(w) => {
                let ghost before = steps_view(out@);
                out.push(w);
                assert(steps_view(out@) == before.push(step_view(w)));
            },
        }
        i = i + 1;
    }
    if out.len() == 0 {
        return Err(ImportError::NoRows);
    }
    Ok(out)
}

/// The steps are well formed: every hour lies in 0..=23, no hour occurs twice, and
/// every temperature is a literal of a finite number.
pub open spec fn steps_valid(steps: Seq<WeatherStep<Seq<char>>>) -> bool {
    &&& forall|i: int| 0 <= i < steps.len() ==> #[trigger] steps[i].hour <= 23
    &&& forall|i: int| 0 <= i < steps.len() ==> is_finite_literal(#[trigger] steps[i].t_ext_c)
    &&& forall|i: int, j: int| 0 <= i < j < steps.len() ==> #[trigger] steps[i].hour != #[trigger] steps[j].hour
}

proof fn lemma_weather_rows_valid(cols: (usize, usize), rows: Seq<Result<Seq<Seq<char>>, Seq<char>>>, n: int)
    requires
        weather_rows(cols, rows, n) is Ok,
    ensures
        steps_valid(weather_rows(cols, rows, n)->Ok_0),
    decreases n,
{
    if n > 0 {
        lemma_weather_rows_valid(cols, rows, n - 1);
        let acc = weather_rows(cols, rows, n - 1)->Ok_0;
        let row = rows[n - 1]->Ok_0;
        let hours = acc.map_values(|w: WeatherStep<Seq<char>>| w.hour);
        let w = weather_row(cols, row, hours)->Ok_0;
        let steps = acc.push(w);
        assert(!hours.contains(w.hour));
        assert forall|i: int, j: int| 0 <= i < j < steps.len() implies #[trigger] steps[i].hour
            != #[trigger] steps[j].hour by {
            if j == steps.len() - 1 {
                assert(hours[i] == acc[i].hour);
            }
        }
    }
}

/// Every sequence of steps that the weather reader accepts is non-empty and well formed.
pub proof fn lemma_weather_valid(t: TableView)
    requires
        spec_weather(t) is Ok,
    ensures
        spec_weather(t)->Ok_0.len() > 0,
        steps_valid(spec_weather(t)->Ok_0),
{
    let cols = weather_columns(t.0->Ok_0)->Ok_0;
    lemma_weather_rows_valid(cols, t.1, t.1.len() as int);
}

/// Weather steps of the CSV text `content` (see `weather_from_table`).
pub fn parse_weather_csv(content: &str) -> (r: Result<Vec<WeatherStep<String>>, ImportError<String>>)
    ensures
        match r {
            Ok(v) => spec_weather(csv_table(content@)) == Ok::<Seq<WeatherStep<Seq<char>>>, ImportError<Seq<char>>>(steps_view(v@)),
            Err(e) => spec_weather(csv_table(content@)) == Err::<Seq<WeatherStep<Seq<char>>>, ImportError<Seq<char>>>(error_view(e)),
        },
{
    let table = read_csv(content);
    weather_from_table(&table)
}

} // verus!
