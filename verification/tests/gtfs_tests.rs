//! GTFS text parsing and the assembly of bus schedules and routes.

use velos::feed::{build_routes, build_schedules, route_stops, stop_times_fit, text_less, RouteStopIds};
use velos::gtfs::{csv_field, parse_csv, parse_time, parse_time_fields};

const STOPS: &str = "stop_id,stop_name,stop_lat,stop_lon
stop_01,Ben Thanh Market,10.7725,106.6980
stop_02,Nguyen Hue,10.7740,106.7030
stop_03,Cho Lon,10.7500,106.6600
stop_04,Bui Vien,10.7670,106.6930
stop_05,Bitexco,10.7716,106.7044
";

const ROUTES: &str = "route_id,route_short_name,route_long_name,route_type
route_02,02,Nguyen Hue - Ben Thanh,3
route_01,01,Ben Thanh - Cho Lon,3
";

const TRIPS: &str = "route_id,service_id,trip_id
route_01,weekday,trip_01
route_02,weekday,trip_02
";

const STOP_TIMES: &str = "trip_id,arrival_time,departure_time,stop_id,stop_sequence
trip_01,06:00:00,06:01:00,stop_01,1
trip_01,06:10:00,06:11:00,stop_04,2
trip_02,07:20:00,07:21:00,stop_01,3
trip_01,06:20:00,06:21:00,stop_03,3

trip_02,07:00:00,07:01:00,stop_02,1
trip_02,07:10:00,07:11:00,stop_05,2
trip_01,06:30:00,06:31:00,stop_02,4
";

fn table(text: &str) -> (Vec<String>, Vec<Vec<String>>) {
    parse_csv(text).expect("a header line")
}

#[test]
fn parse_time_reads_hours_minutes_seconds() {
    assert_eq!(parse_time("06:00:00"), Some(21600));
    assert_eq!(parse_time("06:01:00"), Some(21660));
    assert_eq!(parse_time(" 25:30:05 "), Some(91805));
    assert_eq!(parse_time("+6:0:0"), Some(21600));
    assert_eq!(parse_time_fields("12:34:56"), Some((12, 34, 56)));
}

#[test]
fn parse_time_rejects_malformed_text() {
    assert_eq!(parse_time("06:00"), None);
    assert_eq!(parse_time("06:00:00:00"), None);
    assert_eq!(parse_time("aa:00:00"), None);
    assert_eq!(parse_time("06::00"), None);
    assert_eq!(parse_time("-1:00:00"), None);
    assert_eq!(parse_time(""), None);
}

#[test]
fn parse_csv_trims_and_skips_bad_rows() {
    let (headers, rows) = parse_csv(" a , b ,c\r\n1, 2 ,3\r\n\r\n   \nshort,row\n4,5,6,extra\n").unwrap();
    assert_eq!(headers, vec!["a", "b", "c"]);
    assert_eq!(rows, vec![vec!["1", "2", "3"], vec!["4", "5", "6"]]);
    assert_eq!(parse_csv(""), None);
    assert_eq!(parse_csv("x,y"), Some((vec!["x".to_string(), "y".to_string()], vec![])));
}

#[test]
fn csv_field_uses_the_last_matching_header() {
    let headers = vec!["id".to_string(), "name".to_string(), "id".to_string()];
    let row = vec!["1".to_string(), "n".to_string(), "2".to_string()];
    assert_eq!(csv_field(&headers, &row, "id"), Some(&"2".to_string()));
    assert_eq!(csv_field(&headers, &row, "name"), Some(&"n".to_string()));
    assert_eq!(csv_field(&headers, &row, "missing"), None);
}

#[test]
fn schedules_are_sorted_by_trip_and_sequence() {
    let (th, tr) = table(TRIPS);
    let (sh, sr) = table(STOP_TIMES);
    assert!(stop_times_fit(&sh, &sr));
    let schedules = build_schedules(&th, &tr, &sh, &sr);
    assert_eq!(schedules.len(), 2);
    assert_eq!(schedules[0].trip_id, "trip_01");
    assert_eq!(schedules[1].trip_id, "trip_02");

    let s1 = &schedules[0];
    assert_eq!(s1.route_id, "route_01");
    assert_eq!(s1.stop_times.len(), 4);
    assert_eq!(s1.stop_times[0].arrival_s, 21600);
    assert_eq!(s1.stop_times[0].departure_s, 21660);
    assert_eq!(s1.stop_times[0].stop_sequence, 1);

    let s2 = &schedules[1];
    let stops: Vec<&str> = s2.stop_times.iter().map(|st| st.stop_id.as_str()).collect();
    assert_eq!(stops, vec!["stop_02", "stop_05", "stop_01"]);
    for sched in &schedules {
        let seqs: Vec<u32> = sched.stop_times.iter().map(|st| st.stop_sequence).collect();
        let mut sorted = seqs.clone();
        sorted.sort();
        assert_eq!(seqs, sorted, "stop_times for {} not ordered", sched.trip_id);
    }
}

#[test]
fn routes_take_stops_from_their_first_trip() {
    let (rh, rr) = table(ROUTES);
    let (th, tr) = table(TRIPS);
    let (sh, sr) = table(STOP_TIMES);
    let (ph, pr) = table(STOPS);
    let schedules = build_schedules(&th, &tr, &sh, &sr);
    let routes = build_routes(&rh, &rr, &schedules, &ph, &pr);
    assert_eq!(routes.len(), 2);
    assert_eq!(
        routes[0],
        RouteStopIds {
            route_id: "route_01".to_string(),
            route_name: "Ben Thanh - Cho Lon".to_string(),
            stop_ids: vec!["stop_01".to_string(), "stop_04".to_string(), "stop_03".to_string(), "stop_02".to_string()],
        }
    );
    assert_eq!(routes[1].route_id, "route_02");
    assert_eq!(routes[1].route_name, "Nguyen Hue - Ben Thanh");
    assert_eq!(routes[1].stop_ids, vec!["stop_02", "stop_05", "stop_01"]);
}

#[test]
fn unknown_trips_routes_and_stops_fall_back() {
    let trips = "route_id,trip_id\nroute_01,trip_A\n";
    let stop_times = "trip_id,stop_id,stop_sequence,arrival_time\ntrip_B,stop_09,x,bad\ntrip_B,stop_01,2,\n,stop_01,1,06:00:00\n";
    let routes = "route_id\nroute_01\nroute_03\nroute_01\n";
    let stops = "stop_id,stop_name\nstop_01,Ben Thanh\n";
    let (th, tr) = table(trips);
    let (sh, sr) = table(stop_times);
    let (rh, rr) = table(routes);
    let (ph, pr) = table(stops);
    let schedules = build_schedules(&th, &tr, &sh, &sr);
    // The row with an empty trip ID still has a trip ID field (empty text).
    assert_eq!(schedules.len(), 2);
    assert_eq!(schedules[0].trip_id, "");
    assert_eq!(schedules[0].route_id, "unknown");
    let b = &schedules[1];
    assert_eq!(b.trip_id, "trip_B");
    assert_eq!(b.route_id, "unknown");
    // Unreadable sequence numbers and times count as 0.
    assert_eq!(b.stop_times[0].stop_id, "stop_09");
    assert_eq!(b.stop_times[0].stop_sequence, 0);
    assert_eq!(b.stop_times[0].arrival_s, 0);
    assert_eq!(b.stop_times[0].departure_s, 0);
    assert_eq!(b.stop_times[1].stop_sequence, 2);

    let built = build_routes(&rh, &rr, &schedules, &ph, &pr);
    assert_eq!(built.len(), 2);
    assert_eq!(built[0].route_id, "route_01");
    assert_eq!(built[0].route_name, "");
    assert!(built[0].stop_ids.is_empty());
    assert_eq!(built[1].route_id, "route_03");
}

#[test]
fn route_stops_skip_stops_unknown_to_stops_table() {
    let (th, tr) = table("route_id,trip_id\nr,t\n");
    let (sh, sr) = table("trip_id,stop_id,stop_sequence\nt,a,1\nt,zz,2\nt,b,3\n");
    let (ph, pr) = table("stop_id\nb\na\n");
    let schedules = build_schedules(&th, &tr, &sh, &sr);
    assert_eq!(route_stops(&schedules, &"r".to_string(), &ph, &pr), vec!["a", "b"]);
    assert!(route_stops(&schedules, &"other".to_string(), &ph, &pr).is_empty());
}

#[test]
fn overflowing_times_are_detected() {
    let (sh, sr) = table("trip_id,stop_id,arrival_time\nt,s,1193047:00:00\n");
    assert!(!stop_times_fit(&sh, &sr));
    let (sh, sr) = table("trip_id,stop_id,arrival_time\nt,s,1193046:28:15\n");
    assert!(stop_times_fit(&sh, &sr));
    // Rows without a trip ID are never read, so their times do not matter.
    let (sh, sr) = table("stop_id,arrival_time\ns,99999999:00:00\n");
    assert!(stop_times_fit(&sh, &sr));
}

#[test]
fn text_order_matches_str_comparison() {
    let words = ["", "a", "ab", "b", "B", "trip_10", "trip_2", "é", "z"];
    for x in words {
        for y in words {
            assert_eq!(text_less(&x.to_string(), &y.to_string()), x < y, "{x:?} < {y:?}");
        }
    }
}
