use evolve_backend::config::{Config, Email, MeiliSearch, Redis};

fn sample_config() -> Config {
    Config {
        name: String::from("evolve_backend"),
        host: String::from("127.0.0.1"),
        port: 8080,
        redis: Redis {
            host: String::from("127.0.0.1"),
            port: 6379,
            username: None,
            password: None,
        },
        meilisearch: MeiliSearch {
            address: String::from("http://127.0.0.1:7700"),
            api_key: String::from("key"),
        },
        email: Email {
            username: String::from("u"),
            password: String::from("p"),
            relay: String::from("smtp.example.com"),
            port: 465,
        },
    }
}

#[test]
fn test_1() {
    let config = sample_config();
    let name = &config.name;
    assert_eq!("evolve_backend", name)
}
