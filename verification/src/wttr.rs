//! The weather lookup's data shapes and its pure logic: building the query
//! URL and shaping the service's answer for chat.  The HTTP call itself is
//! the caller's.

use vstd::prelude::*;
use vstd::string::{StrSliceExecFns, StringExecFns};
use crate::message::opt_text_view;
use crate::reply::push_char;

verus! {

/// Where to look the weather up.
pub struct WeatherInput {
    pub city: String,
    pub state: String,
    pub country: String,
}

/// The service's answer, as far as the chat output reads it.
pub struct WeatherOutput {
    pub current_condition: Vec<CurrentCondition>,
    pub nearest_area: Vec<Area>,
}

pub struct CurrentCondition {
    pub temp_c: String,
    pub temp_f: String,
    pub weather_desc: Vec<WeatherDesc>,
    pub humidity: String,
    pub windspeed_kmph: String,
    pub winddir16_point: String,
}

pub struct WeatherDesc {
    pub value: String,
}

pub struct Area {
    pub area_name: Vec<WeatherDesc>,
    pub country: Vec<WeatherDesc>,
    pub region: Vec<WeatherDesc>,
}

/// What the chat reply carries.
pub struct WeatherOutputForChat {
    pub temp_c: String,
    pub temp_f: String,
    pub description: Option<String>,
    pub location: Option<String>,
    pub humidity: String,
    pub windspeed_kmph: String,
    pub wind_direction: String,
}

/// The text with each space written as `%20`.
pub open spec fn encode_spaces(s: Seq<char>) -> Seq<char>
    decreases s.len(),
{
    if s.len() == 0 {
        Seq::<char>::empty()
    } else {
        encode_spaces(s.drop_last()) + (if s.last() == ' ' {
            seq!['%', '2', '0']
        } else {
            seq![s.last()]
        })
    }
}

/// The lookup URL: the place fields joined by `+`, spaces escaped.
pub open spec fn weather_url_spec(city: Seq<char>, state: Seq<char>, country: Seq<char>) -> Seq<
    char,
> {
    encode_spaces(
        "https://wttr.in/"@ + city + "+"@ + state + "+"@ + country + "?format=j1"@,
    )
}

/// Builds the weather-service query URL for a place.
pub fn weather_request_url(input: &WeatherInput) -> (r: String)
    ensures
        r@ == weather_url_spec(input.city@, input.state@, input.country@),
{
    let mut t = String::new();
    t.append("https://wttr.in/");
    t.append(input.city.as_str());
    t.append("+");
    t.append(input.state.as_str());
    t.append("+");
    t.append(input.country.as_str());
    t.append("?format=j1");
    let ghost whole = "https://wttr.in/"@ + input.city@ + "+"@ + input.state@ + "+"@
        + input.country@ + "?format=j1"@;
    proof {
        assert(t@ =~= whole);
    }
    let n = t.unicode_len();
    let mut out = String::new();
    let mut k: usize = 0;
    proof {
        assert(t@.take(0).len() == 0);
    }
    while k < n
        invariant
            0 <= k <= n,
            n == t@.len(),
            out@ == encode_spaces(t@.take(k as int)),
        decreases n - k,
    {
        let c = t.as_str().get_char(k);
        if c == ' ' {
            out.append("%20");
        } else {
            push_char(&mut out, c);
        }
        k += 1;
        proof {
            let cur = t@.take(k as int);
            assert(cur.drop_last() =~= t@.take(k - 1));
            assert(cur.last() == t@[k - 1]);
            if t@[k - 1] == ' ' {
                reveal_strlit("%20");
                assert("%20"@ =~= seq!['%', '2', '0']);
                assert(out@ =~= encode_spaces(t@.take(k - 1)) + seq!['%', '2', '0']);
            } else {
                assert(out@ =~= encode_spaces(t@.take(k - 1)) + seq![t@[k - 1]]);
            }
        }
    }
    proof {
        assert(t@.take(n as int) =~= t@);
    }
    out
}

/// The location line of a weather answer: the last nearest area's last name
/// and region, or nothing when the answer does not carry them.
pub open spec fn location_spec(areas: Seq<Area>) -> Option<Seq<char>> {
    if areas.len() == 0 {
        Option::None
    } else {
        let a = areas.last();
        if a.area_name@.len() > 0 && a.region@.len() > 0 {
            Option::Some(a.area_name@.last().value@ + ", "@ + a.region@.last().value@)
        } else {
            Option::None
        }
    }
}

/// Shapes a weather answer for chat, reading the last current condition;
/// an answer without one yields nothing.  An answer whose nearest area
/// misses a name or region simply gets no location line.
pub fn weather_output_for_chat(resp: WeatherOutput) -> (r: Option<WeatherOutputForChat>)
    ensures
        r is Some <==> resp.current_condition@.len() > 0,
        r matches Some(o) ==> {
            let cur = resp.current_condition@.last();
            &&& o.temp_c@ == cur.temp_c@
            &&& o.temp_f@ == cur.temp_f@
            &&& o.humidity@ == cur.humidity@
            &&& o.windspeed_kmph@ == cur.windspeed_kmph@
            &&& o.wind_direction@ == cur.winddir16_point@
            &&& opt_text_view(o.description) == (if cur.weather_desc@.len() > 0 {
                Option::Some(cur.weather_desc@.last().value@)
            } else {
                Option::<Seq<char>>::None
            })
            &&& opt_text_view(o.location) == location_spec(resp.nearest_area@)
        },
{
    let mut resp = resp;
    let current = match resp.current_condition.pop() {
        Option::None => {
            return Option::None;
        },
        Option::Some(c) => c,
    };
    let mut current = current;
    let description = match current.weather_desc.pop() {
        Option::Some(d) => Option::Some(d.value),
        Option::None => Option::None,
    };
    let location = match resp.nearest_area.pop() {
        Option::None => Option::None,
        Option::Some(a) => {
            let mut a = a;
            let an = a.area_name.pop();
            let rg = a.region.pop();
            match (an, rg) {
                (Option::Some(n), Option::Some(g)) => {
                    let mut s = n.value;
                    s.append(", ");
                    s.append(g.value.as_str());
                    Option::Some(s)
                },
                _ => Option::None,
            }
        },
    };
    Option::Some(WeatherOutputForChat {
        temp_c: current.temp_c,
        temp_f: current.temp_f,
        description,
        location,
        humidity: current.humidity,
        windspeed_kmph: current.windspeed_kmph,
        wind_direction: current.winddir16_point,
    })
}

} // verus!
