use dsa_visualizer::minigrep::{search, Config};

#[test]
fn one_result() {
    let query = "duct";
    let contents = "\
Rust: 
safe, fast, productive.
Pick three.";
    assert_eq!(vec!["safe, fast, productive."], search(query, contents));
}

#[test]
fn search_keeps_order_and_skips_non_matching() {
    let contents = "alpha\nbeta\nalphabet\r\ngamma";
    assert_eq!(vec!["alpha", "alphabet"], search("alpha", contents));
    assert!(search("delta", contents).is_empty());
    assert!(search("x", "").is_empty());
}

#[test]
fn config_build_needs_two_arguments() {
    let args = vec!["prog".to_string(), "q".to_string()];
    assert!(matches!(Config::build(&args), Err("not enough arguments")));
    let args = vec!["prog".to_string(), "needle".to_string(), "file.txt".to_string()];
    let c = Config::build(&args).ok().unwrap();
    assert_eq!(c.q, "needle");
    assert_eq!(c.fp, "file.txt");
}
