use vsdx::connectivity::{
    connection_row, endpoint_name, glue_outcome, row_order, ConnectivityDiagnostic,
    ConnectorEndpoint,
};
use vsdx::formula::{unit, Unit};
use vsdx::sheet::Connect;
use vsdx::text::{decimal_string, parse_u32};

fn connect(from_cell: Option<&str>, to_cell: Option<&str>) -> Connect {
    Connect {
        from_sheet: 10,
        from_cell: from_cell.map(str::to_owned),
        from_part: Some(9),
        to_sheet: 20,
        to_cell: to_cell.map(str::to_owned),
        to_part: Some(100),
    }
}

#[test]
fn from_cells_name_connector_ends() {
    assert_eq!(endpoint_name("BeginX"), Some(ConnectorEndpoint::Begin));
    assert_eq!(endpoint_name("BeginY"), Some(ConnectorEndpoint::Begin));
    assert_eq!(endpoint_name("EndX"), Some(ConnectorEndpoint::End));
    assert_eq!(endpoint_name("EndY"), Some(ConnectorEndpoint::End));
    assert_eq!(endpoint_name("PinX"), None);
}

#[test]
fn to_cells_name_connection_rows() {
    assert_eq!(connection_row("Connections.X7"), Some(7));
    assert_eq!(connection_row("Connections.X+3"), Some(3));
    assert_eq!(connection_row("Connections.X"), None);
    assert_eq!(connection_row("Connections.Y7"), None);
    assert_eq!(connection_row("Connections.X99999999999"), None);
    assert_eq!(connection_row("PinX"), None);
}

#[test]
fn dangling_glue_records_earn_diagnostics() {
    let (end, diagnostics) = glue_outcome(&connect(Some("BeginX"), None), None, Some(true));
    assert_eq!(end, None);
    assert!(matches!(diagnostics.as_slice(), [ConnectivityDiagnostic::MissingFromShape { shape_id: 10 }]));

    let (end, diagnostics) = glue_outcome(&connect(Some("PinX"), None), Some(true), Some(true));
    assert_eq!(end, None);
    assert!(matches!(
        diagnostics.as_slice(),
        [ConnectivityDiagnostic::UnsupportedFromCell { shape_id: 10, cell }] if cell == "PinX"
    ));

    let (end, diagnostics) =
        glue_outcome(&connect(Some("EndX"), Some("Connections.X7")), Some(true), None);
    assert_eq!(end, Some(ConnectorEndpoint::End));
    assert!(matches!(diagnostics.as_slice(), [ConnectivityDiagnostic::MissingToShape { shape_id: 20 }]));

    let (end, diagnostics) =
        glue_outcome(&connect(Some("EndX"), Some("Connections.X7")), Some(false), Some(false));
    assert_eq!(end, Some(ConnectorEndpoint::End));
    assert!(matches!(
        diagnostics.as_slice(),
        [
            ConnectivityDiagnostic::UnsupportedFromCell { shape_id: 10, cell },
            ConnectivityDiagnostic::MissingConnectionPoint { shape_id: 20, row: 7 },
        ] if cell == "EndX"
    ));
}

#[test]
fn well_formed_glue_earns_no_diagnostics() {
    let (end, diagnostics) =
        glue_outcome(&connect(Some("BeginY"), Some("Connections.X2")), Some(true), Some(true));
    assert_eq!(end, Some(ConnectorEndpoint::Begin));
    assert!(diagnostics.is_empty());
    let (_, diagnostics) = glue_outcome(&connect(Some("BeginY"), Some("PinX")), Some(true), Some(false));
    assert!(diagnostics.is_empty());
}

#[test]
fn geometry_rows_sort_by_index_then_key() {
    assert_eq!(row_order("IX:10"), (10, ""));
    assert_eq!(row_order("IX:2"), (2, ""));
    assert_eq!(row_order("N:Custom"), (u32::MAX, "N:Custom"));
    assert_eq!(row_order("IX:x"), (u32::MAX, "IX:x"));
    let mut keys = vec!["IX:10", "N:b", "IX:2", "IX:1"];
    keys.sort_by(|a, b| row_order(a).cmp(&row_order(b)));
    assert_eq!(keys, vec!["IX:1", "IX:2", "IX:10", "N:b"]);
}

#[test]
fn decimal_numbers_round_trip() {
    for n in [0u32, 7, 10, 65536, u32::MAX] {
        assert_eq!(parse_u32(&decimal_string(n)), Some(n));
    }
    assert_eq!(decimal_string(4096), "4096");
    assert_eq!(parse_u32("4294967296"), None);
    assert_eq!(parse_u32("-1"), None);
    assert_eq!(parse_u32(""), None);
}

#[test]
fn unit_suffixes_name_unit_families() {
    assert_eq!(unit(""), Some(Unit::Number));
    assert_eq!(unit("IN"), Some(Unit::Inches));
    assert_eq!(unit("mm"), Some(Unit::Inches));
    assert_eq!(unit("Deg"), Some(Unit::Radians));
    assert_eq!(unit("ew"), Some(Unit::Seconds));
    assert_eq!(unit("BOOL"), Some(Unit::Bool));
    assert_eq!(unit("furlong"), None);
}
