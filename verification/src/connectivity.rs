//! Glue between connectors and shapes: which connector end a glue record's
//! cell names, which connection row it targets, and the diagnostics a record
//! earns; plus the order in which geometry rows are realized.

use vstd::prelude::*;

use crate::sheet::Connect;
use crate::text::{parse_u32, spec_parse_u32, starts_with};

verus! {

/// A problem with a page's glue.
#[derive(Debug)]
pub enum ConnectivityDiagnostic {
    MissingFromShape { shape_id: u32 },
    MissingToShape { shape_id: u32 },
    MissingConnectionPoint { shape_id: u32, row: u32 },
    UnsupportedFromCell { shape_id: u32, cell: String },
}

/// The end of a 1D connector that a glue record attaches.
#[derive(Debug, Clone, Copy, PartialEq, Eq, Structural)]
pub enum ConnectorEndpoint {
    Begin,
    End,
}

/// The connector end that a glue record's `FromCell` names.
pub open spec fn spec_endpoint_name(name: Seq<char>) -> Option<ConnectorEndpoint> {
    if name == "BeginX"@ || name == "BeginY"@ {
        Some(ConnectorEndpoint::Begin)
    } else if name == "EndX"@ || name == "EndY"@ {
        Some(ConnectorEndpoint::End)
    } else {
        None
    }
}

/// The connector end that a `FromCell` of `BeginX`/`BeginY` or `EndX`/`EndY` names.
pub fn endpoint_name(name: &str) -> (res: Option<ConnectorEndpoint>)
    ensures
        res == spec_endpoint_name(name@),
{
    if crate::text::str_eq(name, "BeginX") || crate::text::str_eq(name, "BeginY") {
        Some(ConnectorEndpoint::Begin)
    } else if crate::text::str_eq(name, "EndX") || crate::text::str_eq(name, "EndY") {
        Some(ConnectorEndpoint::End)
    } else {
        None
    }
}

/// The connection row a `ToCell` of the form `Connections.X<row>` names.
pub open spec fn spec_connection_row(name: Seq<char>) -> Option<u32> {
    let prefix = "Connections.X"@;
    if prefix.len() <= name.len() && name.take(prefix.len() as int) == prefix {
        spec_parse_u32(name.skip(prefix.len() as int))
    } else {
        None
    }
}

/// The connection row that a `ToCell` such as `Connections.X3` names.
pub fn connection_row(name: &str) -> (res: Option<u32>)
    ensures
        res == spec_connection_row(name@),
{
    let prefix = "Connections.X";
    if starts_with(name, prefix) {
        let n = name.unicode_len();
        let m = prefix.unicode_len();
        parse_u32(name.substring_char(m, n))
    } else {
        None
    }
}

/// The text of an optional cell name, empty when there is none.
pub open spec fn cell_text(cell: Option<String>) -> Seq<char> {
    match cell {
        Some(c) => c@,
        None => Seq::empty(),
    }
}

/// The diagnostic for a glue record whose `FromCell` is not a connector end.
pub open spec fn unsupported_from(connect: Connect, d: ConnectivityDiagnostic) -> bool {
    d matches ConnectivityDiagnostic::UnsupportedFromCell { shape_id, cell } && shape_id
        == connect.from_sheet && cell@ == cell_text(connect.from_cell)
}

/// What a glue record contributes, given what is known of the shapes it
/// joins: `source_one_d` is `None` when the page has no shape `FromSheet`, else
/// whether that shape is 1D; `target_point` is `None` when the page has no
/// shape `ToSheet`, else whether the connection point that `ToCell` names
/// could be placed. The record attaches to a connector end unless its source
/// is missing or its `FromCell` names no end; its diagnostics are, in order: a
/// 2D source, a missing target, an unplaceable connection point.
pub open spec fn glue_outcome_ok(
    connect: Connect,
    source_one_d: Option<bool>,
    target_point: Option<bool>,
    endpoint: Option<ConnectorEndpoint>,
    diagnostics: Seq<ConnectivityDiagnostic>,
) -> bool {
    match source_one_d {
        None => endpoint is None && diagnostics.len() == 1 && (
        diagnostics[0] matches ConnectivityDiagnostic::MissingFromShape { shape_id } && shape_id
            == connect.from_sheet),
        Some(one_d) => {
            let end = match connect.from_cell {
                Some(c) => spec_endpoint_name(c@),
                None => None,
            };
            match end {
                None => endpoint is None && diagnostics.len() == 1 && unsupported_from(
                    connect,
                    diagnostics[0],
                ),
                Some(e) => {
                    let first = if one_d {
                        Seq::<ConnectivityDiagnostic>::empty()
                    } else {
                        diagnostics.take(1)
                    };
                    let rest = diagnostics.skip(first.len() as int);
                    let row = match connect.to_cell {
                        Some(c) => spec_connection_row(c@),
                        None => None,
                    };
                    &&& endpoint == Some(e)
                    &&& (!one_d ==> diagnostics.len() >= 1 && unsupported_from(
                        connect,
                        diagnostics[0],
                    ))
                    &&& match target_point {
                        None => rest.len() == 1 && (
                        rest[0] matches ConnectivityDiagnostic::MissingToShape { shape_id }
                            && shape_id == connect.to_sheet),
                        Some(found) => match row {
                            Some(r) if !found => rest.len() == 1 && (
                            rest[0] matches ConnectivityDiagnostic::MissingConnectionPoint {
                                shape_id,
                                row,
                            } && shape_id == connect.to_sheet && row == r),
                            _ => rest.len() == 0,
                        },
                    }
                },
            }
        },
    }
}

fn unsupported_from_cell(connect: &Connect) -> (res: ConnectivityDiagnostic)
    ensures
        unsupported_from(*connect, res),
{
    ConnectivityDiagnostic::UnsupportedFromCell {
        shape_id: connect.from_sheet,
        cell: match &connect.from_cell {
            Some(c) => c.clone(),
            None => String::new(),
        },
    }
}

/// The connector end a glue record attaches and the diagnostics it earns.
pub fn glue_outcome(connect: &Connect, source_one_d: Option<bool>, target_point: Option<bool>) -> (res: (
    Option<ConnectorEndpoint>,
    Vec<ConnectivityDiagnostic>,
))
    ensures
        glue_outcome_ok(*connect, source_one_d, target_point, res.0, res.1@),
{
    let mut diagnostics: Vec<ConnectivityDiagnostic> = Vec::new();
    let one_d = match source_one_d {
        None => {
            diagnostics.push(
                ConnectivityDiagnostic::MissingFromShape { shape_id: connect.from_sheet },
            );
            return (None, diagnostics);
        },
        Some(one_d) => one_d,
    };
    let end = match &connect.from_cell {
        Some(c) => endpoint_name(c.as_str()),
        None => None,
    };
    let endpoint = match end {
        None => {
            diagnostics.push(unsupported_from_cell(connect));
            return (None, diagnostics);
        },
        Some(e) => e,
    };
    if !one_d {
        diagnostics.push(unsupported_from_cell(connect));
    }
    let ghost first = diagnostics@;
    match target_point {
        None => {
            diagnostics.push(ConnectivityDiagnostic::MissingToShape { shape_id: connect.to_sheet });
        },
        Some(found) => {
            let row = match &connect.to_cell {
                Some(c) => connection_row(c.as_str()),
                None => None,
            };
            match row {
                Some(r) => {
                    if !found {
                        diagnostics.push(
                            ConnectivityDiagnostic::MissingConnectionPoint {
                                shape_id: connect.to_sheet,
                                row: r,
                            },
                        );
                    }
                },
                None => {},
            }
        },
    }
    assert(diagnostics@.take(first.len() as int) =~= first);
    (Some(endpoint), diagnostics)
}

/// Where a geometry row falls when rows are realized: `IX:<n>` rows by their
/// index (with an empty tie-break), any other key after them, by key.
pub open spec fn spec_row_order(key: Seq<char>) -> (u32, Seq<char>) {
    let prefix = "IX:"@;
    if prefix.len() <= key.len() && key.take(prefix.len() as int) == prefix && spec_parse_u32(
        key.skip(prefix.len() as int),
    ) is Some {
        (spec_parse_u32(key.skip(prefix.len() as int)).unwrap(), Seq::empty())
    } else {
        (u32::MAX, key)
    }
}

/// The sort key of a geometry row key.
pub fn row_order(key: &str) -> (res: (u32, &str))
    ensures
        res.0 == spec_row_order(key@).0,
        res.1@ == spec_row_order(key@).1,
{
    let prefix = "IX:";
    if starts_with(key, prefix) {
        let n = key.unicode_len();
        let m = prefix.unicode_len();
        match parse_u32(key.substring_char(m, n)) {
            Some(index) => {
                proof {
                    reveal_strlit("");
                }
                return (index, "");
            },
            None => {},
        }
    }
    (u32::MAX, key)
}

} // verus!
