use anna::wttr::{
    weather_output_for_chat, weather_request_url, Area, CurrentCondition, WeatherDesc,
    WeatherInput, WeatherOutput,
};

#[test]
fn weather_url_joins_and_escapes() {
    let input = WeatherInput {
        city: "New York".to_string(),
        state: "NY".to_string(),
        country: "".to_string(),
    };
    assert_eq!(weather_request_url(&input), "https://wttr.in/New%20York+NY+?format=j1");

    let input = WeatherInput {
        city: "Duckman".to_string(),
        state: "".to_string(),
        country: "".to_string(),
    };
    assert_eq!(weather_request_url(&input), "https://wttr.in/Duckman++?format=j1");
}

fn sample_condition() -> CurrentCondition {
    CurrentCondition {
        temp_c: "21".to_string(),
        temp_f: "70".to_string(),
        weather_desc: vec![WeatherDesc { value: "Sunny".to_string() }],
        humidity: "40".to_string(),
        windspeed_kmph: "12".to_string(),
        winddir16_point: "NW".to_string(),
    }
}

#[test]
fn weather_output_reads_the_last_condition() {
    let resp = WeatherOutput {
        current_condition: vec![sample_condition()],
        nearest_area: vec![Area {
            area_name: vec![WeatherDesc { value: "Springfield".to_string() }],
            country: vec![WeatherDesc { value: "USA".to_string() }],
            region: vec![WeatherDesc { value: "Illinois".to_string() }],
        }],
    };
    let out = weather_output_for_chat(resp).unwrap();
    assert_eq!(out.temp_c, "21");
    assert_eq!(out.temp_f, "70");
    assert_eq!(out.humidity, "40");
    assert_eq!(out.windspeed_kmph, "12");
    assert_eq!(out.wind_direction, "NW");
    assert_eq!(out.description.as_deref(), Some("Sunny"));
    assert_eq!(out.location.as_deref(), Some("Springfield, Illinois"));
}

#[test]
fn weather_output_without_a_condition_is_nothing() {
    let resp = WeatherOutput { current_condition: Vec::new(), nearest_area: Vec::new() };
    assert!(weather_output_for_chat(resp).is_none());
}

#[test]
fn weather_output_tolerates_sparse_answers() {
    let mut cond = sample_condition();
    cond.weather_desc = Vec::new();
    let resp = WeatherOutput {
        current_condition: vec![cond],
        nearest_area: vec![Area { area_name: Vec::new(), country: Vec::new(), region: Vec::new() }],
    };
    let out = weather_output_for_chat(resp).unwrap();
    assert!(out.description.is_none());
    assert!(out.location.is_none());
}
