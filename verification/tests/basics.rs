use nationstates::{get_user_agent, API_VERSION, NS_URL};

#[test]
fn it_works() {
    let result = 2 + 2;
    assert_eq!(result, 4);
}

#[test]
fn endpoint_and_version() {
    assert_eq!(NS_URL, "https://www.nationstates.net/cgi-bin/api.cgi");
    assert_eq!(API_VERSION, 11);
}

#[test]
fn user_agent_comes_from_the_environment_value() {
    assert_eq!(get_user_agent(&Some("agent/1.0".to_string())), Some("agent/1.0"));
    assert_eq!(get_user_agent(&None), None);
}
