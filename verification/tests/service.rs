use ranker::{health, RankRequest, RankResponse, Record};

fn request(ratings: &[Option<f64>], sort: &str) -> RankRequest<usize> {
    let mut items = Vec::new();
    for (id, rating) in ratings.iter().enumerate() {
        let distance = rating.map(|r| (10.0 - r).to_bits());
        items.push(Record::from_bits(id, rating.map(f64::to_bits), distance));
    }
    RankRequest { items, sort: sort.to_string() }
}

fn ids(response: &RankResponse<usize>) -> Vec<usize> {
    let mut out = Vec::new();
    for item in &response.items {
        out.push(item.payload);
    }
    out
}

#[test]
fn health_names_the_service_and_says_ok() {
    let report = health();
    assert_eq!(report.service, "omnixius-rust");
    assert_eq!(report.status, "ok");
}

#[test]
fn health_is_the_same_every_time() {
    let first = health();
    let second = health();
    assert_eq!(first.service, second.service);
    assert_eq!(first.status, second.status);
}

#[test]
fn the_empty_request_has_no_records_and_no_token() {
    let request = RankRequest::<usize>::default();
    assert!(request.items.is_empty());
    assert_eq!(request.sort, "");
}

#[test]
fn the_empty_request_is_answered_with_no_records() {
    let response = RankRequest::<usize>::default().respond();
    assert!(response.items.is_empty());
}

#[test]
fn a_request_is_answered_by_its_token() {
    let ratings = [Some(3.0), Some(5.0), None, Some(4.0)];
    assert_eq!(ids(&request(&ratings, "rating").respond()), vec![1, 3, 0, 2]);
    assert_eq!(ids(&request(&ratings, "distance").respond()), vec![1, 3, 0, 2]);
    assert_eq!(ids(&request(&ratings, "").respond()), vec![0, 1, 2, 3]);
    assert_eq!(ids(&request(&ratings, "price").respond()), vec![0, 1, 2, 3]);
}

#[test]
fn a_request_without_records_is_answered_with_none() {
    for sort in ["rating", "distance", "", "foo"] {
        assert!(request(&[], sort).respond().items.is_empty());
    }
}
