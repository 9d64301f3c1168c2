use train_network::args::case;
use train_network::args::{
    parse_number, parse_package, parse_route, parse_station, parse_train, split_fields, Route,
};
use train_network::error::{Error, Record};

fn names(fields: Vec<String>) -> Vec<String> {
    fields
}

#[test]
fn split_fields_at_commas() {
    assert_eq!(names(split_fields("a,b,c")), vec!["a", "b", "c"]);
    assert_eq!(names(split_fields("")), vec![""]);
    assert_eq!(names(split_fields(",")), vec!["", ""]);
    assert_eq!(names(split_fields("a,,b,")), vec!["a", "", "b", ""]);
    assert_eq!(names(split_fields("no comma")), vec!["no comma"]);
}

#[test]
fn split_fields_counts_characters_not_bytes() {
    assert_eq!(names(split_fields("Zürich,Genève")), vec!["Zürich", "Genève"]);
}

#[test]
fn parse_number_reads_decimal_digits() {
    assert_eq!(parse_number("0"), Some(0));
    assert_eq!(parse_number("10"), Some(10));
    assert_eq!(parse_number("007"), Some(7));
    assert_eq!(parse_number("+5"), Some(5));
    assert_eq!(parse_number("4294967295"), Some(u32::MAX));
}

#[test]
fn parse_number_refuses_what_is_no_number() {
    assert_eq!(parse_number(""), None);
    assert_eq!(parse_number("+"), None);
    assert_eq!(parse_number("-1"), None);
    assert_eq!(parse_number("1 "), None);
    assert_eq!(parse_number(" 1"), None);
    assert_eq!(parse_number("1_000"), None);
    assert_eq!(parse_number("ten"), None);
    assert_eq!(parse_number("1.5"), None);
    assert_eq!(parse_number("4294967296"), None);
    assert_eq!(parse_number("99999999999999999999999"), None);
    assert_eq!(parse_number("++1"), None);
}

#[test]
fn parse_number_agrees_with_the_standard_library() {
    for text in [
        "0", "1", "42", "+42", "-42", "", "+", "4294967295", "4294967296", "00", "1a", "a1", "٣",
    ] {
        assert_eq!(parse_number(text), text.parse::<u32>().ok(), "{text}");
    }
}

#[test]
fn parse_station_takes_one_field() {
    assert_eq!(parse_station("A").unwrap().name, "A");
    assert_eq!(parse_station("").unwrap().name, "");
    assert_eq!(
        parse_station("A,B").unwrap_err(),
        Error::InputFormat(Record::Station)
    );
}

#[test]
fn parse_route_takes_four_fields() {
    let route = parse_route("AB,A,B,10").unwrap();
    assert_eq!(route.name, "AB");
    assert_eq!(route.from_to, ("A".to_string(), "B".to_string()));
    assert_eq!(route.travel_time, 10);
}

#[test]
fn parse_route_refuses_other_shapes() {
    for text in ["AB,A,B", "AB,A,B,10,x", "AB,A,B,ten", "AB,A,B,", "AB,A,B,-1", ""] {
        assert_eq!(
            parse_route(text).unwrap_err(),
            Error::InputFormat(Record::Route),
            "{text}"
        );
    }
}

#[test]
fn parse_package_takes_four_fields() {
    let package = parse_package("P,5,A,C").unwrap();
    assert_eq!(package.name, "P");
    assert_eq!(package.weight, 5);
    assert_eq!(package.from_to, ("A".to_string(), "C".to_string()));
}

#[test]
fn parse_package_refuses_other_shapes() {
    for text in ["P,5,A", "P,5,A,C,D", "P,heavy,A,C", "P,,A,C"] {
        assert_eq!(
            parse_package(text).unwrap_err(),
            Error::InputFormat(Record::Package),
            "{text}"
        );
    }
}

#[test]
fn parse_train_takes_three_fields() {
    let train = parse_train("T,5,A").unwrap();
    assert_eq!(train.name, "T");
    assert_eq!(train.capacity, 5);
    assert_eq!(train.initial_station_name, "A");
}

#[test]
fn parse_train_refuses_other_shapes() {
    for text in ["T,5", "T,5,A,B", "T,big,A", "T,4294967296,A"] {
        assert_eq!(
            parse_train(text).unwrap_err(),
            Error::InputFormat(Record::Train),
            "{text}"
        );
    }
}

#[test]
fn error_messages() {
    assert_eq!(Error::InputFormat(Record::Station).message(), "[NAME]");
    assert_eq!(
        Error::InputFormat(Record::Route).message(),
        "[NAME],[STATION1],[STATION2],[TIME]"
    );
    assert_eq!(
        Error::InputFormat(Record::Package).message(),
        "[NAME],[WEIGHT],[START],[DESTINATION]"
    );
    assert_eq!(
        Error::InputFormat(Record::Train).message(),
        "[NAME],[CAPACITY],[INITIAL_STATION_NAME]"
    );
    assert_eq!(
        Error::UnknownStation("X".to_string()).message(),
        "station not found: X"
    );
    assert_eq!(
        Error::Infeasible.message(),
        "no plan delivers every package"
    );
}

#[test]
fn reverse_swaps_the_ends_and_renames() {
    let route = Route {
        name: "AB".to_string(),
        from_to: ("A".to_string(), "B".to_string()),
        travel_time: 10,
    };
    let back = route.reverse();
    assert_eq!(back.name, "AB#rev");
    assert_eq!(back.from_to, ("B".to_string(), "A".to_string()));
    assert_eq!(back.travel_time, 10);
    assert_ne!(back.name, route.name);
    let again = back.reverse();
    assert_eq!(again.name, "AB#rev#rev");
    assert_eq!(again.from_to, route.from_to);
}

#[test]
fn cases_are_as_drawn() {
    let network = case::diverge();
    assert_eq!(network.stations.len(), 5);
    assert_eq!(network.routes.len(), 4);
    assert_eq!(network.routes[1].name, "BC");
    assert_eq!(network.routes[1].travel_time, 50);
    assert_eq!(network.packages.len(), 2);
    assert_eq!(network.packages[0].from_to, ("B".to_string(), "A".to_string()));
    assert_eq!(network.trains[0].capacity, 10);
    assert_eq!(network.trains[0].initial_station_name, "C");

    let network = case::multiple_packages_islands();
    assert_eq!(network.trains.len(), 2);
    assert_eq!(network.routes[1].travel_time, 20);
    assert_eq!(case::direct().packages[0].weight, 5);
    assert_eq!(case::choice().routes[3].travel_time, 50);
    assert_eq!(case::islands().routes.len(), 1);
    assert_eq!(case::multiple_packages_small_train().trains[0].capacity, 5);
    assert_eq!(case::multiple_packages_big_train().trains[0].capacity, 10);
}
