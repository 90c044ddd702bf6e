use ozi::batch::gen_queries;
use ozi::codec::{decode_prices, encode_prices, CodecError};
use ozi::fetch::{collect_batches, prices_from_response};
use ozi::pair::CollateralPair;
use ozi::price::Price;
use ozi::signer::{sign_message, validate_secret, SignError};
use ozi::submit::{LoopAction, LoopEvent, Phase, SubmissionLoop};
use ozi::symbol::Symbol;
use ozi::ParseError;
use ethers_core::abi::{ParamType, Token};
use ethers_core::types::{Signature, U256};
use ethers_signers::{LocalWallet, Signer};

// A well-known throwaway secp256k1 test key: the scalar one.
const TEST_KEY: &str = "0000000000000000000000000000000000000000000000000000000000000001";

fn pair(f: Symbol, t: Symbol) -> CollateralPair {
    CollateralPair { fsym: f, tsym: t }
}

#[test]
fn test_parse_symbols() {
    let pair = Symbol::parse_symbols("USD/JPY", "/");
    assert!(pair.is_ok());
    assert_eq!((Symbol::USD, Symbol::JPY), pair.unwrap());

    let pair = Symbol::parse_symbols("ETH-JPY", "-");
    assert!(pair.is_ok());
    let pair = pair.unwrap();
    assert_eq!((Symbol::ETH, Symbol::JPY), pair);
}

#[test]
fn test_parse_collateral_pairs() {
    let collateral_pairs = CollateralPair::parse_collateral_pairs(vec![
        "USDC/NGN".into(),
        "JPY/USD".into(),
        "USDC/JPY".into(),
        "USDC/ETH".into(),
        "JPY/NGN".into(),
    ]);
    assert!(collateral_pairs.is_ok());
}

#[test]
fn test_gen_query() {
    let r = gen_queries(vec![
        pair(Symbol::JPY, Symbol::NGN),
        pair(Symbol::USDC, Symbol::JPY),
        pair(Symbol::JPY, Symbol::USD),
        pair(Symbol::USDC, Symbol::ETH),
        pair(Symbol::USDC, Symbol::NGN),
    ]);

    assert_eq!(r.len(), 2);

    let client = reqwest::Client::new();
    let rbs = r
        .iter()
        .filter_map(|q| {
            client
                .get("https://min-api.cryptocompare.com/data/price")
                .query(&[("fsym", q.fsym_param.clone()), ("tsyms", q.tsyms_param.clone())])
                .build()
                .ok()
        })
        .collect::<Vec<_>>();

    assert_eq!(rbs[0].url().query(), Some("fsym=JPY&tsyms=NGN%2CUSD"));
    assert_eq!(rbs[1].url().query(), Some("fsym=USDC&tsyms=ETH%2CJPY%2CNGN"));
}

#[test]
fn cryptocompare_test_gen_query() {
    let r = gen_queries(vec![
        pair(Symbol::JPY, Symbol::NGN),
        pair(Symbol::USDC, Symbol::JPY),
        pair(Symbol::JPY, Symbol::USD),
        pair(Symbol::USDC, Symbol::ETH),
        pair(Symbol::USDC, Symbol::NGN),
    ]);

    assert_eq!(r.len(), 2);

    let client = reqwest::Client::new();
    let rbs = r
        .iter()
        .filter_map(|q| {
            client
                .get("https://min-api.cryptocompare.com/data/price")
                .query(&[("fsym", q.fsym_param.clone()), ("tsyms", q.tsyms_param.clone())])
                .build()
                .ok()
        })
        .collect::<Vec<_>>();

    assert_eq!(rbs[0].url().query(), Some("fsym=JPY&tsyms=NGN%2CUSD"));
    assert_eq!(rbs[1].url().query(), Some("fsym=USDC&tsyms=ETH%2CJPY%2CNGN"));
}

#[test]
fn gen_queries_dedups_tsyms() {
    let r = gen_queries(vec![
        pair(Symbol::JPY, Symbol::USD),
        pair(Symbol::JPY, Symbol::USD),
        pair(Symbol::JPY, Symbol::NGN),
    ]);
    assert_eq!(r.len(), 1);
    assert_eq!(r[0].fsym, Symbol::JPY);
    assert_eq!(r[0].fsym_param, "JPY");
    assert_eq!(r[0].tsyms_param, "NGN,USD");
    assert_eq!(r[0].tsyms, vec![Symbol::NGN, Symbol::USD]);
}

#[test]
fn gen_queries_orders_fsyms_lexically() {
    let r = gen_queries(vec![pair(Symbol::USD, Symbol::JPY), pair(Symbol::ETH, Symbol::JPY)]);
    assert_eq!(r.len(), 2);
    assert_eq!(r[0].fsym, Symbol::ETH);
    assert_eq!(r[1].fsym, Symbol::USD);
}

#[test]
fn gen_queries_deterministic_across_orderings() {
    let a = gen_queries(vec![
        pair(Symbol::JPY, Symbol::NGN),
        pair(Symbol::USDC, Symbol::JPY),
        pair(Symbol::JPY, Symbol::USD),
        pair(Symbol::USDC, Symbol::ETH),
        pair(Symbol::USDC, Symbol::NGN),
    ]);
    // the same pair set, in another order and with a duplicate
    let b = gen_queries(vec![
        pair(Symbol::USDC, Symbol::NGN),
        pair(Symbol::JPY, Symbol::USD),
        pair(Symbol::USDC, Symbol::ETH),
        pair(Symbol::JPY, Symbol::NGN),
        pair(Symbol::USDC, Symbol::JPY),
        pair(Symbol::JPY, Symbol::USD),
    ]);
    assert_eq!(a.len(), b.len());
    for (qa, qb) in a.iter().zip(b.iter()) {
        assert_eq!(qa.fsym, qb.fsym);
        assert_eq!(qa.tsyms, qb.tsyms);
        assert_eq!(qa.fsym_param, qb.fsym_param);
        assert_eq!(qa.tsyms_param, qb.tsyms_param);
    }
}

#[test]
fn pair_to_string_and_back() {
    let p = pair(Symbol::USDC, Symbol::ETH);
    assert_eq!(p.to_string(), "USDC/ETH");
    assert_eq!(CollateralPair::try_from("USDC/ETH").unwrap(), p);
}

#[test]
fn pair_parse_rejects_unknown_code() {
    assert_eq!(CollateralPair::try_from("EUR/JPY"), Err(ParseError::UnknownSymbol));
}

#[test]
fn pair_parse_rejects_missing_delimiter() {
    assert_eq!(CollateralPair::try_from("USDJPY"), Err(ParseError::InvalidFormat));
}

#[test]
fn pair_parse_rejects_three_tokens() {
    assert!(CollateralPair::try_from("USD/JPY/ETH").is_err());
}

#[test]
fn pair_from_padded_string() {
    let s = format!("{:0<64}", "USD/JPY");
    let p = CollateralPair::from_64_len_hex_string(&s);
    assert_eq!(p, pair(Symbol::USD, Symbol::JPY));
}

#[test]
fn parse_collateral_pairs_sorts() {
    let v = CollateralPair::parse_collateral_pairs(vec![
        "USDC/NGN".into(),
        "JPY/USD".into(),
        "JPY/NGN".into(),
    ])
    .unwrap();
    assert_eq!(
        v,
        vec![
            pair(Symbol::JPY, Symbol::NGN),
            pair(Symbol::JPY, Symbol::USD),
            pair(Symbol::USDC, Symbol::NGN),
        ]
    );
}

#[test]
fn parse_collateral_pairs_rejects_bad_entry() {
    let v = CollateralPair::parse_collateral_pairs(vec!["JPY/USD".into(), "JPYUSD".into()]);
    assert!(v.is_err());
}

#[test]
fn codec_round_trip() {
    let prices = vec![
        Price { fsym: Symbol::JPY, tsym: Symbol::USD, rate: 6_543, timestamp: 1_700_000_001 },
        Price {
            fsym: Symbol::USDC,
            tsym: Symbol::ETH,
            rate: 312_500,
            timestamp: 1_700_000_002,
        },
    ];
    let payload = encode_prices(&prices);
    let decoded = decode_prices(&payload).unwrap();
    assert_eq!(decoded, prices);
}

#[test]
fn codec_round_trip_empty() {
    let prices: Vec<Price> = vec![];
    let payload = encode_prices(&prices);
    assert_eq!(payload.len(), 64);
    let decoded = decode_prices(&payload).unwrap();
    assert!(decoded.is_empty());
}

#[test]
fn codec_matches_reference_abi_encoding() {
    let prices = vec![
        Price { fsym: Symbol::JPY, tsym: Symbol::USD, rate: 6_543, timestamp: 1_700_000_001 },
        Price { fsym: Symbol::USD, tsym: Symbol::NGN, rate: 1_604_000_000, timestamp: 7 },
    ];
    let tokens = Token::Array(
        prices
            .iter()
            .map(|p| {
                Token::Tuple(vec![
                    Token::Uint(U256::from(p.rate)),
                    Token::Uint(U256::from(p.timestamp)),
                    Token::String(p.collateral_pair().to_string()),
                ])
            })
            .collect(),
    );
    let reference = ethers_core::abi::encode(&[tokens]);
    let ours = encode_prices(&prices);
    assert_eq!(ours, reference);
}

#[test]
fn codec_decodes_reference_abi_encoding() {
    let prices = vec![Price {
        fsym: Symbol::ETH,
        tsym: Symbol::USDC,
        rate: 2_900_125_000,
        timestamp: 1_700_000_003,
    }];
    let payload = encode_prices(&prices);
    let tokens = ethers_core::abi::decode(
        &[ParamType::Array(Box::new(ParamType::Tuple(vec![
            ParamType::Uint(256),
            ParamType::Uint(256),
            ParamType::String,
        ])))],
        &payload,
    )
    .unwrap();
    let items = tokens[0].clone().into_array().unwrap();
    match &items[0] {
        Token::Tuple(fields) => {
            assert_eq!(fields[0].clone().into_uint().unwrap().as_u64(), 2_900_125_000);
            assert_eq!(fields[1].clone().into_uint().unwrap().as_u64(), 1_700_000_003);
            assert_eq!(fields[2].clone().into_string().unwrap(), "ETH/USDC");
        }
        other => panic!("expected a tuple, got {other:?}"),
    }
}

#[test]
fn decode_rejects_truncated_payload() {
    let prices = vec![Price { fsym: Symbol::JPY, tsym: Symbol::USD, rate: 1, timestamp: 2 }];
    let mut payload = encode_prices(&prices);
    payload.pop();
    assert_eq!(decode_prices(&payload), Err(CodecError::BadLength));
}

#[test]
fn decode_rejects_bad_header() {
    let prices = vec![Price { fsym: Symbol::JPY, tsym: Symbol::USD, rate: 1, timestamp: 2 }];
    let mut payload = encode_prices(&prices);
    payload[31] = 0x40;
    assert_eq!(decode_prices(&payload), Err(CodecError::BadHeader));
}

#[test]
fn decode_rejects_bad_offset() {
    let prices = vec![Price { fsym: Symbol::JPY, tsym: Symbol::USD, rate: 1, timestamp: 2 }];
    let mut payload = encode_prices(&prices);
    payload[95] ^= 1;
    assert_eq!(decode_prices(&payload), Err(CodecError::BadOffset));
}

#[test]
fn decode_rejects_rate_overflow() {
    let prices = vec![Price { fsym: Symbol::JPY, tsym: Symbol::USD, rate: 1, timestamp: 2 }];
    let mut payload = encode_prices(&prices);
    // set a high byte of the rate word: the value no longer fits u64
    payload[96] = 1;
    assert_eq!(decode_prices(&payload), Err(CodecError::Overflow));
}

#[test]
fn decode_rejects_bad_pair_string() {
    let prices = vec![Price { fsym: Symbol::JPY, tsym: Symbol::USD, rate: 1, timestamp: 2 }];
    let mut payload = encode_prices(&prices);
    let len = payload.len();
    // corrupt the first byte of "JPY/USD"
    payload[len - 32] = b'Q';
    assert_eq!(decode_prices(&payload), Err(CodecError::BadPairString));
}

#[test]
fn decode_rejects_nonzero_padding() {
    let prices = vec![Price { fsym: Symbol::JPY, tsym: Symbol::USD, rate: 1, timestamp: 2 }];
    let mut payload = encode_prices(&prices);
    let len = payload.len();
    payload[len - 1] = 1;
    assert_eq!(decode_prices(&payload), Err(CodecError::BadPairString));
}

#[test]
fn sign_yields_65_bytes() {
    let payload = encode_prices(&vec![Price {
        fsym: Symbol::USD,
        tsym: Symbol::JPY,
        rate: 151_230_000,
        timestamp: 1_700_000_000,
    }]);
    let sig = sign_message(TEST_KEY, &payload).unwrap();
    assert_eq!(sig.len(), 65);
}

#[test]
fn signature_recovers_to_signer() {
    let payload = b"oracle payload".to_vec();
    let sig = sign_message(TEST_KEY, &payload).unwrap();
    let wallet: LocalWallet = TEST_KEY.parse().unwrap();
    let parsed = Signature::try_from(sig.as_slice()).unwrap();
    let recovered = parsed.recover(payload.as_slice()).unwrap();
    assert_eq!(recovered, wallet.address());
}

#[test]
fn sign_accepts_0x_prefix() {
    let msg = vec![1u8, 2, 3];
    let plain = sign_message(TEST_KEY, &msg).unwrap();
    let prefixed = sign_message(&format!("0x{TEST_KEY}"), &msg).unwrap();
    assert_eq!(plain, prefixed);
}

#[test]
fn sign_rejects_bad_hex() {
    assert_eq!(sign_message("not hex at all", &vec![1]), Err(SignError::InvalidHex));
    assert_eq!(sign_message("abcd", &vec![1]), Err(SignError::InvalidHex));
}

#[test]
fn sign_rejects_invalid_key() {
    let zeros = "0".repeat(64);
    assert_eq!(sign_message(&zeros, &vec![1]), Err(SignError::InvalidKey));
    assert_eq!(validate_secret(&zeros), Err(SignError::InvalidKey));
}

#[test]
fn validate_secret_accepts_test_key() {
    let key = validate_secret(TEST_KEY).unwrap();
    assert_eq!(key.len(), 32);
    assert_eq!(key[31], 1);
}

#[test]
fn prices_from_response_stamps_every_entry() {
    let rates = vec![(Symbol::USD, 6_543u64), (Symbol::NGN, 10_500_000u64)];
    let prices = prices_from_response(Symbol::JPY, &rates, 42);
    assert_eq!(prices.len(), 2);
    assert_eq!(
        prices[0],
        Price { fsym: Symbol::JPY, tsym: Symbol::USD, rate: 6_543, timestamp: 42 }
    );
    assert_eq!(
        prices[1],
        Price { fsym: Symbol::JPY, tsym: Symbol::NGN, rate: 10_500_000, timestamp: 42 }
    );
}

#[test]
fn three_batches_one_failure() {
    let b1 = vec![Price { fsym: Symbol::JPY, tsym: Symbol::USD, rate: 1, timestamp: 9 }];
    let b3 = vec![
        Price { fsym: Symbol::USDC, tsym: Symbol::ETH, rate: 2, timestamp: 9 },
        Price { fsym: Symbol::USDC, tsym: Symbol::NGN, rate: 3, timestamp: 9 },
    ];
    let collected = collect_batches(vec![Some(b1.clone()), None, Some(b3.clone())]);
    assert_eq!(collected.len(), 3);
    for p in b1.iter().chain(b3.iter()) {
        assert!(collected.contains(p));
    }
}

#[test]
fn get_unix_timestamp_is_current_era() {
    let now = ozi::get_unix_timestamp();
    assert!(now > 1_600_000_000);
}

#[test]
fn submission_cycle_end_to_end() {
    let pairs = vec![
        pair(Symbol::JPY, Symbol::NGN),
        pair(Symbol::USDC, Symbol::JPY),
        pair(Symbol::JPY, Symbol::USD),
        pair(Symbol::USDC, Symbol::ETH),
        pair(Symbol::USDC, Symbol::NGN),
    ];
    let mut node = SubmissionLoop::new(TEST_KEY.to_string(), pairs, 500);
    assert_eq!(node.phase, Phase::Waiting);

    let queries = match node.step(LoopEvent::WaitElapsed) {
        LoopAction::StartFetch(qs) => qs,
        other => panic!("expected a fetch to start, got {other:?}"),
    };
    assert_eq!(node.phase, Phase::Fetching);
    assert_eq!(queries.len(), 2);

    // mocked exchange responses, one mapping per query
    let timestamp = 1_712_000_000u64;
    let mut batches = Vec::new();
    for q in &queries {
        let rates: Vec<(Symbol, u64)> = q
            .tsyms
            .iter()
            .enumerate()
            .map(|(k, t)| (*t, 1_000_000 + k as u64))
            .collect();
        batches.push(Some(prices_from_response(q.fsym, &rates, timestamp)));
    }
    let prices = collect_batches(batches);
    assert_eq!(prices.len(), 5);

    let (payload, signature) = match node.step(LoopEvent::PricesFetched(prices.clone())) {
        LoopAction::Submit(payload, signature) => (payload, signature),
        other => panic!("expected a submission, got {other:?}"),
    };
    assert_eq!(node.phase, Phase::Submitting);
    assert_eq!(signature.len(), 65);

    // the relay side decodes the signed payload back to the same triples
    let decoded = decode_prices(&payload).unwrap();
    assert_eq!(decoded.len(), prices.len());
    for (d, p) in decoded.iter().zip(prices.iter()) {
        assert_eq!((d.fsym, d.tsym, d.rate), (p.fsym, p.tsym, p.rate));
        assert_eq!(d.timestamp, timestamp);
    }

    match node.step(LoopEvent::SubmitSucceeded("ok".to_string())) {
        LoopAction::Wait(ms) => assert_eq!(ms, 500),
        other => panic!("expected a wait, got {other:?}"),
    }
    assert_eq!(node.phase, Phase::Waiting);
}

#[test]
fn submission_halts_on_bad_secret() {
    let mut node =
        SubmissionLoop::new("feedface".to_string(), vec![pair(Symbol::JPY, Symbol::USD)], 100);
    node.step(LoopEvent::WaitElapsed);
    let prices = vec![Price { fsym: Symbol::JPY, tsym: Symbol::USD, rate: 1, timestamp: 2 }];
    match node.step(LoopEvent::PricesFetched(prices)) {
        LoopAction::Halt(e) => assert_eq!(e, SignError::InvalidHex),
        other => panic!("expected a halt, got {other:?}"),
    }
    assert_eq!(node.phase, Phase::Halted);
}

#[test]
fn submission_waits_after_failed_submit() {
    let mut node =
        SubmissionLoop::new(TEST_KEY.to_string(), vec![pair(Symbol::JPY, Symbol::USD)], 250);
    node.step(LoopEvent::WaitElapsed);
    let prices = vec![Price { fsym: Symbol::JPY, tsym: Symbol::USD, rate: 1, timestamp: 2 }];
    node.step(LoopEvent::PricesFetched(prices));
    match node.step(LoopEvent::SubmitFailed) {
        LoopAction::Wait(ms) => assert_eq!(ms, 250),
        other => panic!("expected a wait, got {other:?}"),
    }
    assert_eq!(node.phase, Phase::Waiting);
}
